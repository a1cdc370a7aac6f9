use vstd::prelude::*;

verus! {

/// Distance given to a face that no wavefront has reached yet.
pub const UNREACHED: u32 = 0xFFFF_FFFF;

/// Row offset of the `k`-th of the eight neighbours, in the order in which neighbours are
/// visited.
pub open spec fn offset_row(k: int) -> int {
    if k == 0 || k == 3 || k == 5 {
        1
    } else if k == 1 || k == 6 {
        0
    } else {
        -1
    }
}

/// Column offset of the `k`-th of the eight neighbours.
pub open spec fn offset_col(k: int) -> int {
    if k <= 2 {
        -1
    } else if k <= 4 {
        0
    } else {
        1
    }
}

/// `(r2, c2)` is one of the eight cells around `(r1, c1)`.
pub open spec fn adjacent(r1: int, c1: int, r2: int, c2: int) -> bool {
    &&& (r1 != r2 || c1 != c2)
    &&& -1 <= r1 - r2 <= 1
    &&& -1 <= c1 - c2 <= 1
}

/// The rows of a table of vectors, as sequences.
pub open spec fn table_view<A>(t: Seq<Vec<A>>) -> Seq<Seq<A>> {
    Seq::new(t.len(), |r: int| t[r]@)
}

/// `t` has `height` rows of `width` entries.
pub open spec fn is_table<A>(t: Seq<Seq<A>>, height: int, width: int) -> bool {
    &&& t.len() == height
    &&& forall|r: int| 0 <= r < height ==> (#[trigger] t[r]).len() == width
}

pub open spec fn in_table(height: int, width: int, r: int, c: int) -> bool {
    0 <= r < height && 0 <= c < width
}

/// Some cell around `(r, c)` is known.
pub open spec fn has_known_neighbor(known: Seq<Seq<bool>>, r: int, c: int) -> bool {
    exists|r2: int, c2: int|
        in_table(known.len() as int, known[0].len() as int, r2, c2) && adjacent(r, c, r2, c2)
            && #[trigger] known[r2][c2]
}

/// Some cell around `(r, c)` has distance `d`.
pub open spec fn has_neighbor_at(dist: Seq<Seq<u32>>, r: int, c: int, d: u32) -> bool {
    exists|r2: int, c2: int|
        in_table(dist.len() as int, dist[0].len() as int, r2, c2) && adjacent(r, c, r2, c2)
            && #[trigger] dist[r2][c2] == d
}

/// Offset `k` names an adjacent cell, and adjacency is symmetric.
pub proof fn lemma_offset_is_adjacent(r: int, c: int, k: int)
    requires
        0 <= k < 8,
    ensures
        adjacent(r, c, r + offset_row(k), c + offset_col(k)),
        adjacent(r + offset_row(k), c + offset_col(k), r, c),
{
}

/// Every adjacent cell is named by an offset.
pub proof fn lemma_adjacent_has_offset(r: int, c: int, r2: int, c2: int) -> (k: int)
    requires
        adjacent(r, c, r2, c2),
    ensures
        0 <= k < 8,
        r2 == r + offset_row(k),
        c2 == c + offset_col(k),
{
    let dr = r2 - r;
    let dc = c2 - c;
    if dc == -1 {
        if dr == 1 {
            0
        } else if dr == 0 {
            1
        } else {
            2
        }
    } else if dc == 0 {
        if dr == 1 {
            3
        } else {
            4
        }
    } else {
        if dr == 1 {
            5
        } else if dr == 0 {
            6
        } else {
            7
        }
    }
}

/// The `k`-th neighbour of `(row, col)`, if it lies in a `height x width` table.
pub fn neighbor(row: usize, col: usize, k: usize, height: usize, width: usize) -> (r: Option<(usize, usize)>)
    requires
        k < 8,
        row < height,
        col < width,
    ensures
        r is Some <==> in_table(height as int, width as int, row + offset_row(k as int), col + offset_col(
            k as int,
        )),
        r is Some ==> r->Some_0.0 == row + offset_row(k as int) && r->Some_0.1 == col + offset_col(
            k as int,
        ),
{
    let dr: i64 = if k == 0 || k == 3 || k == 5 {
        1
    } else if k == 1 || k == 6 {
        0
    } else {
        -1
    };
    let dc: i64 = if k <= 2 {
        -1
    } else if k <= 4 {
        0
    } else {
        1
    };
    if (row == 0 && dr < 0) || (col == 0 && dc < 0) {
        return None;
    }
    let r2 = if dr < 0 {
        row - 1
    } else if dr > 0 {
        if row + 1 >= height {
            return None;
        }
        row + 1
    } else {
        row
    };
    let c2 = if dc < 0 {
        col - 1
    } else if dc > 0 {
        if col + 1 >= width {
            return None;
        }
        col + 1
    } else {
        col
    };
    Some((r2, c2))
}

/// The neighbour offsets `k` (see `offset_row`, `offset_col`) at which the neighbour of
/// `(row, col)` lies in the table and holds `value`, in increasing order.
pub fn check_surrounding(table: &Vec<Vec<u32>>, row: usize, col: usize, value: u32) -> (r: Vec<usize>)
    requires
        table@.len() >= 1,
        is_table(table_view(table@), table@.len() as int, table@[0]@.len() as int),
        row < table@.len(),
        col < table@[0]@.len(),
    ensures
        forall|i: int| 0 <= i < r@.len() ==> #[trigger] r@[i] < 8,
        forall|i: int, j: int| 0 <= i < j < r@.len() ==> r@[i] < r@[j],
        forall|k: int|
            0 <= k < 8 ==> (r@.contains(k as usize) <==> in_table(
                table@.len() as int,
                table@[0]@.len() as int,
                row + offset_row(k),
                col + offset_col(k),
            ) && table@[row + offset_row(k)]@[col + offset_col(k)] == value),
{
    let height = table.len();
    let width = table[0].len();
    let mut out: Vec<usize> = Vec::new();
    let mut k: usize = 0;
    while k < 8
        invariant
            height == table@.len(),
            width == table@[0]@.len(),
            height >= 1,
            is_table(table_view(table@), height as int, width as int),
            row < height,
            col < width,
            k <= 8,
            forall|i: int| 0 <= i < out@.len() ==> #[trigger] out@[i] < k,
            forall|i: int, j: int| 0 <= i < j < out@.len() ==> out@[i] < out@[j],
            forall|m: int|
                0 <= m < k ==> (out@.contains(m as usize) <==> in_table(
                    height as int,
                    width as int,
                    row + offset_row(m),
                    col + offset_col(m),
                ) && table@[row + offset_row(m)]@[col + offset_col(m)] == value),
            forall|m: usize| k <= m < 8 ==> !(#[trigger] out@.contains(m)),
        decreases 8 - k,
    {
        let ghost before = out@;
        if let Some((r2, c2)) = neighbor(row, col, k, height, width) {
            proof {
                assert(table_view(table@)[r2 as int].len() == width);
            }
            if table[r2][c2] == value {
                out.push(k);
            }
        }
        proof {
            assert forall|m: int| 0 <= m < k + 1 implies (out@.contains(m as usize) <==> in_table(
                height as int,
                width as int,
                row + offset_row(m),
                col + offset_col(m),
            ) && table@[row + offset_row(m)]@[col + offset_col(m)] == value) by {
                if m < k {
                    if out@.contains(m as usize) {
                        let i = choose|i: int| 0 <= i < out@.len() && out@[i] == m as usize;
                        if i < before.len() {
                            assert(before.contains(m as usize));
                        }
                    }
                    if before.contains(m as usize) {
                        let i = choose|i: int| 0 <= i < before.len() && before[i] == m as usize;
                        assert(out@[i] == m as usize);
                    }
                } else if out@.len() > before.len() {
                    assert(out@[before.len() as int] == k);
                } else {
                    assert(!before.contains(k));
                    assert(out@ == before);
                }
            }
            assert forall|m: usize| k + 1 <= m < 8 implies !(#[trigger] out@.contains(m)) by {
                if out@.contains(m) {
                    let i = choose|i: int| 0 <= i < out@.len() && out@[i] == m;
                    if i < before.len() {
                        assert(before.contains(m));
                    }
                }
            }
        }
        k += 1;
    }
    out
}

/// `d` has neighbour offset `k` of `(r, c)` inside the table, holding `v`.
pub open spec fn offset_holds(d: Seq<Seq<u32>>, r: int, c: int, k: int, v: u32) -> bool {
    &&& in_table(d.len() as int, d[0].len() as int, r + offset_row(k), c + offset_col(k))
    &&& d[r + offset_row(k)][c + offset_col(k)] == v
}

/// A neighbour holding `v` exists exactly when some offset reaches one.
pub proof fn lemma_neighbor_via_offsets(d: Seq<Seq<u32>>, r: int, c: int, v: u32)
    ensures
        has_neighbor_at(d, r, c, v) <==> exists|k: int| 0 <= k < 8 && #[trigger] offset_holds(d, r, c, k, v),
{
    if has_neighbor_at(d, r, c, v) {
        let (r2, c2) = choose|r2: int, c2: int|
            in_table(d.len() as int, d[0].len() as int, r2, c2) && adjacent(r, c, r2, c2)
                && #[trigger] d[r2][c2] == v;
        let k = lemma_adjacent_has_offset(r, c, r2, c2);
        assert(offset_holds(d, r, c, k, v));
    }
    if exists|k: int| 0 <= k < 8 && #[trigger] offset_holds(d, r, c, k, v) {
        let k = choose|k: int| 0 <= k < 8 && #[trigger] offset_holds(d, r, c, k, v);
        let r2 = r + offset_row(k);
        let c2 = c + offset_col(k);
        lemma_offset_is_adjacent(r, c, k);
        assert(d[r2][c2] == v);
    }
}

/// Two tables of one shape that hold `v` at the same cells agree on which cells have a
/// neighbour holding `v`.
pub proof fn lemma_same_cells_at(d1: Seq<Seq<u32>>, d2: Seq<Seq<u32>>, v: u32, h: int, w: int, r: int, c: int)
    requires
        h >= 1,
        is_table(d1, h, w),
        is_table(d2, h, w),
        forall|r2: int, c2: int| in_table(h, w, r2, c2) ==> (#[trigger] d1[r2][c2] == v <==> d2[r2][c2] == v),
    ensures
        has_neighbor_at(d1, r, c, v) <==> has_neighbor_at(d2, r, c, v),
{
    assert(d1[0].len() == w);
    assert(d2[0].len() == w);
    if has_neighbor_at(d1, r, c, v) {
        let (r2, c2) = choose|r2: int, c2: int|
            in_table(d1.len() as int, d1[0].len() as int, r2, c2) && adjacent(r, c, r2, c2)
                && #[trigger] d1[r2][c2] == v;
        assert(d2[r2][c2] == v);
    }
    if has_neighbor_at(d2, r, c, v) {
        let (r2, c2) = choose|r2: int, c2: int|
            in_table(d2.len() as int, d2[0].len() as int, r2, c2) && adjacent(r, c, r2, c2)
                && #[trigger] d2[r2][c2] == v;
        assert(d1[r2][c2] == v);
    }
}

/// Distance 0 for known faces, `UNREACHED` for the others.
fn initial_distances(known: &Vec<Vec<bool>>) -> (r: Vec<Vec<u32>>)
    requires
        is_table(table_view(known@), known@.len() as int, if known@.len() > 0 {
            known@[0]@.len() as int
        } else {
            0
        }),
    ensures
        is_table(table_view(r@), known@.len() as int, if known@.len() > 0 {
            known@[0]@.len() as int
        } else {
            0
        }),
        forall|i: int, j: int|
            in_table(known@.len() as int, if known@.len() > 0 {
                known@[0]@.len() as int
            } else {
                0
            }, i, j) ==> #[trigger] table_view(r@)[i][j] == if table_view(known@)[i][j] {
                0
            } else {
                UNREACHED
            },
{
    let h = known.len();
    let w = if h > 0 {
        known[0].len()
    } else {
        0
    };
    let ghost kv = table_view(known@);
    let mut out: Vec<Vec<u32>> = Vec::new();
    let mut i: usize = 0;
    while i < h
        invariant
            h == known@.len(),
            kv == table_view(known@),
            is_table(kv, h as int, w as int),
            i <= h,
            out@.len() == i,
            forall|k: int| 0 <= k < i ==> (#[trigger] out@[k])@.len() == w,
            forall|k: int, j: int|
                0 <= k < i && 0 <= j < w ==> #[trigger] out@[k]@[j] == if kv[k][j] {
                    0
                } else {
                    UNREACHED
                },
        decreases h - i,
    {
        let mut row: Vec<u32> = Vec::new();
        let mut j: usize = 0;
        proof {
            assert(kv[i as int].len() == w);
        }
        while j < w
            invariant
                h == known@.len(),
                kv == table_view(known@),
                i < h,
                kv[i as int].len() == w,
                j <= w,
                row@.len() == j,
                forall|k: int| 0 <= k < j ==> #[trigger] row@[k] == if kv[i as int][k] {
                    0
                } else {
                    UNREACHED
                },
            decreases w - j,
        {
            row.push(
                if known[i][j] {
                    0
                } else {
                    UNREACHED
                },
            );
            j += 1;
        }
        out.push(row);
        i += 1;
    }
    out
}

/// Gives distance 1 to every face of distance `UNREACHED` that has a neighbour of distance 0,
/// scanning row by row, and returns those faces in scan order.
fn first_wavefront(dist: &mut Vec<Vec<u32>>, h: usize, w: usize) -> (r: Vec<(usize, usize)>)
    requires
        h >= 1,
        is_table(table_view(old(dist)@), h as int, w as int),
        forall|i: int, j: int|
            in_table(h as int, w as int, i, j) ==> #[trigger] table_view(old(dist)@)[i][j] == 0
                || table_view(old(dist)@)[i][j] == UNREACHED,
    ensures
        is_table(table_view(final(dist)@), h as int, w as int),
        forall|i: int, j: int|
            in_table(h as int, w as int, i, j) ==> #[trigger] table_view(final(dist)@)[i][j] == if table_view(
                old(dist)@,
            )[i][j] == 0 {
                0
            } else if has_neighbor_at(table_view(old(dist)@), i, j, 0) {
                1
            } else {
                UNREACHED
            },
        r@.no_duplicates(),
        forall|m: int|
            0 <= m < r@.len() ==> in_table(h as int, w as int, #[trigger] r@[m].0 as int, r@[m].1 as int)
                && table_view(final(dist)@)[r@[m].0 as int][r@[m].1 as int] == 1,
        forall|i: int, j: int|
            in_table(h as int, w as int, i, j) && #[trigger] table_view(final(dist)@)[i][j] == 1
                ==> r@.contains((i as usize, j as usize)),
{
    let ghost d0 = table_view(dist@);
    let mut wave: Vec<(usize, usize)> = Vec::new();
    let mut i: usize = 0;
    while i < h
        invariant
            h >= 1,
            d0 == table_view(old(dist)@),
            is_table(d0, h as int, w as int),
            is_table(table_view(dist@), h as int, w as int),
            forall|a: int, b: int|
                in_table(h as int, w as int, a, b) ==> #[trigger] d0[a][b] == 0 || d0[a][b] == UNREACHED,
            i <= h,
            forall|a: int, b: int|
                in_table(h as int, w as int, a, b) ==> #[trigger] table_view(dist@)[a][b] == if a < i
                    && d0[a][b] != 0 && has_neighbor_at(d0, a, b, 0) {
                    1
                } else {
                    d0[a][b]
                },
            wave@.no_duplicates(),
            forall|m: int|
                0 <= m < wave@.len() ==> in_table(h as int, w as int, #[trigger] wave@[m].0 as int, wave@[m].1 as int)
                    && wave@[m].0 < i && table_view(dist@)[wave@[m].0 as int][wave@[m].1 as int] == 1,
            forall|a: int, b: int|
                in_table(h as int, w as int, a, b) && #[trigger] table_view(dist@)[a][b] == 1
                    ==> wave@.contains((a as usize, b as usize)),
        decreases h - i,
    {
        let mut j: usize = 0;
        while j < w
            invariant
                h >= 1,
                d0 == table_view(old(dist)@),
                is_table(d0, h as int, w as int),
                is_table(table_view(dist@), h as int, w as int),
                forall|a: int, b: int|
                    in_table(h as int, w as int, a, b) ==> #[trigger] d0[a][b] == 0 || d0[a][b] == UNREACHED,
                i < h,
                j <= w,
                forall|a: int, b: int|
                    in_table(h as int, w as int, a, b) ==> #[trigger] table_view(dist@)[a][b] == if (a < i
                        || (a == i && b < j)) && d0[a][b] != 0 && has_neighbor_at(d0, a, b, 0) {
                        1
                    } else {
                        d0[a][b]
                    },
                wave@.no_duplicates(),
                forall|m: int|
                    0 <= m < wave@.len() ==> in_table(h as int, w as int, #[trigger] wave@[m].0 as int, wave@[m].1 as int)
                        && (wave@[m].0 < i || (wave@[m].0 == i && wave@[m].1 < j))
                        && table_view(dist@)[wave@[m].0 as int][wave@[m].1 as int] == 1,
                forall|a: int, b: int|
                    in_table(h as int, w as int, a, b) && #[trigger] table_view(dist@)[a][b] == 1
                        ==> wave@.contains((a as usize, b as usize)),
            decreases w - j,
        {
            let ghost dv = table_view(dist@);
            proof {
                assert(dv[i as int].len() == w);
                assert(dv[i as int][j as int] == dist@[i as int]@[j as int]);
            }
            if dist[i][j] != 0 {
                proof {
                    assert(dv[0].len() == w);
                    assert(dist@[0]@.len() == w);
                }
                let around = check_surrounding(dist, i, j, 0);
                proof {
                    assert forall|a: int, b: int| in_table(h as int, w as int, a, b) implies (#[trigger] d0[a][b]
                        == 0 <==> dv[a][b] == 0) by {
                        assert(dv[a][b] == if (a < i || (a == i && b < j)) && d0[a][b] != 0
                            && has_neighbor_at(d0, a, b, 0) {
                            1
                        } else {
                            d0[a][b]
                        });
                    }
                    lemma_same_cells_at(d0, dv, 0, h as int, w as int, i as int, j as int);
                    lemma_neighbor_via_offsets(dv, i as int, j as int, 0);
                    if around@.len() > 0 {
                        assert(around@.contains(around@[0]));
                        assert(offset_holds(dv, i as int, j as int, around@[0] as int, 0));
                    }
                    if exists|k: int| 0 <= k < 8 && #[trigger] offset_holds(dv, i as int, j as int, k, 0) {
                        let k = choose|k: int| 0 <= k < 8 && #[trigger] offset_holds(dv, i as int, j as int, k, 0);
                        assert(around@.contains(k as usize));
                    }
                }
                if around.len() != 0 {
                    let ghost before = wave@;
                    proof {
                        if wave@.contains((i, j)) {
                            let m = choose|m: int| 0 <= m < wave@.len() && wave@[m] == (i, j);
                        }
                    }
                    dist[i][j] = 1;
                    wave.push((i, j));
                    proof {
                        let dn = table_view(dist@);
                        assert forall|a: int| 0 <= a < h implies (#[trigger] dn[a]).len() == w by {
                            if a != i {
                                assert(dn[a] == dv[a]);
                            }
                        }
                        assert forall|a: int, b: int| in_table(h as int, w as int, a, b) implies #[trigger] dn[a][b]
                            == if (a < i || (a == i && b < j + 1)) && d0[a][b] != 0 && has_neighbor_at(d0, a, b, 0) {
                            1
                        } else {
                            d0[a][b]
                        } by {
                            if a != i || b != j {
                                assert(dn[a][b] == dv[a][b]);
                            }
                        }
                        assert forall|m: int| 0 <= m < wave@.len() implies in_table(h as int, w as int, #[trigger] wave@[m].0 as int, wave@[m].1 as int)
                            && (wave@[m].0 < i || (wave@[m].0 == i && wave@[m].1 < j + 1))
                            && dn[wave@[m].0 as int][wave@[m].1 as int] == 1 by {
                            if m < before.len() {
                                assert(wave@[m] == before[m]);
                                assert(dn[wave@[m].0 as int][wave@[m].1 as int] == dv[wave@[m].0 as int][wave@[m].1 as int]);
                            }
                        }
                        assert forall|a: int, b: int| in_table(h as int, w as int, a, b) && #[trigger] dn[a][b] == 1
                            implies wave@.contains((a as usize, b as usize)) by {
                            if a != i || b != j {
                                assert(dn[a][b] == dv[a][b]);
                                let m = choose|m: int| 0 <= m < before.len() && before[m] == (a as usize, b as usize);
                                assert(wave@[m] == (a as usize, b as usize));
                            } else {
                                assert(wave@[before.len() as int] == (i, j));
                            }
                        }
                        assert forall|x: int, y: int| 0 <= x < wave@.len() && 0 <= y < wave@.len() && x != y
                            implies wave@[x] != wave@[y] by {
                            if x == before.len() {
                                assert(before[y] == wave@[y]);
                                assert(before[y].0 < i || (before[y].0 == i && before[y].1 < j));
                            } else if y == before.len() {
                                assert(before[x] == wave@[x]);
                                assert(before[x].0 < i || (before[x].0 == i && before[x].1 < j));
                            } else {
                                assert(before[x] != before[y]);
                            }
                        }
                    }
                }
            }
            j += 1;
        }
        i += 1;
    }
    wave
}

/// `d2` keeps every reached distance of `d1`; only `UNREACHED` entries may change.
pub open spec fn grows(d1: Seq<Seq<u32>>, d2: Seq<Seq<u32>>, h: int, w: int) -> bool {
    &&& is_table(d1, h, w)
    &&& is_table(d2, h, w)
    &&& forall|i: int, j: int|
        in_table(h, w, i, j) && d1[i][j] != UNREACHED ==> #[trigger] d2[i][j] == d1[i][j]
}

/// The state of a wavefront expansion: distance 0 marks the known faces, distance 1 the unknown
/// faces next to a known one; wavefront `v` lists, without repetition, faces of distance `v + 1`
/// that each have a neighbour of distance `v`; and every face of distance `1..=upto` is listed in
/// the wavefront of its distance.
pub open spec fn settled(
    kv: Seq<Seq<bool>>,
    dv: Seq<Seq<u32>>,
    waves: Seq<Seq<(usize, usize)>>,
    h: int,
    w: int,
    upto: int,
) -> bool {
    &&& is_table(kv, h, w)
    &&& is_table(dv, h, w)
    &&& forall|i: int, j: int| in_table(h, w, i, j) ==> (#[trigger] dv[i][j] == 0 <==> kv[i][j])
    &&& forall|i: int, j: int|
        in_table(h, w, i, j) ==> (#[trigger] dv[i][j] == 1 <==> (!kv[i][j] && has_known_neighbor(
            kv,
            i,
            j,
        )))
    &&& forall|v: int, m: int|
        0 <= v < waves.len() && 0 <= m < waves[v].len() ==> {
            let (a, b) = #[trigger] waves[v][m];
            &&& in_table(h, w, a as int, b as int)
            &&& dv[a as int][b as int] == v + 1
            &&& has_neighbor_at(dv, a as int, b as int, v as u32)
        }
    &&& forall|v: int| 0 <= v < waves.len() ==> (#[trigger] waves[v]).no_duplicates()
    &&& forall|i: int, j: int|
        in_table(h, w, i, j) && 1 <= #[trigger] dv[i][j] <= upto ==> waves[dv[i][j] - 1].contains(
            (i as usize, j as usize),
        )
}

/// A neighbour at a reached distance stays a neighbour at that distance as the table grows.
pub proof fn lemma_grows_neighbor(d1: Seq<Seq<u32>>, d2: Seq<Seq<u32>>, h: int, w: int, r: int, c: int, v: u32)
    requires
        h >= 1,
        grows(d1, d2, h, w),
        v != UNREACHED,
        has_neighbor_at(d1, r, c, v),
    ensures
        has_neighbor_at(d2, r, c, v),
{
    assert(d1[0].len() == w);
    assert(d2[0].len() == w);
    let (r2, c2) = choose|r2: int, c2: int|
        in_table(d1.len() as int, d1[0].len() as int, r2, c2) && adjacent(r, c, r2, c2)
            && #[trigger] d1[r2][c2] == v;
    assert(d2[r2][c2] == v);
}

/// Growing the table with distances beyond `upto` keeps a settled state settled.
pub proof fn lemma_settled_grows(
    kv: Seq<Seq<bool>>,
    d1: Seq<Seq<u32>>,
    d2: Seq<Seq<u32>>,
    waves: Seq<Seq<(usize, usize)>>,
    h: int,
    w: int,
    upto: int,
)
    requires
        h >= 1,
        1 <= upto,
        upto + 1 < UNREACHED,
        waves.len() <= upto,
        settled(kv, d1, waves, h, w, upto),
        grows(d1, d2, h, w),
        forall|i: int, j: int|
            in_table(h, w, i, j) && d1[i][j] == UNREACHED ==> #[trigger] d2[i][j] == UNREACHED || d2[i][j]
                > upto,
    ensures
        settled(kv, d2, waves, h, w, upto),
{
    assert forall|i: int, j: int| in_table(h, w, i, j) implies (#[trigger] d2[i][j] == 0 <==> kv[i][j]) by {
        assert(d1[i][j] == 0 <==> kv[i][j]);
        if d1[i][j] == UNREACHED {
        } else {
            assert(d2[i][j] == d1[i][j]);
        }
    }
    assert forall|i: int, j: int| in_table(h, w, i, j) implies (#[trigger] d2[i][j] == 1 <==> (!kv[i][j]
        && has_known_neighbor(kv, i, j))) by {
        assert(d1[i][j] == 1 <==> (!kv[i][j] && has_known_neighbor(kv, i, j)));
        if d1[i][j] == UNREACHED {
        } else {
            assert(d2[i][j] == d1[i][j]);
        }
    }
    assert forall|v: int, m: int| 0 <= v < waves.len() && 0 <= m < waves[v].len() implies {
        let (a, b) = #[trigger] waves[v][m];
        &&& in_table(h, w, a as int, b as int)
        &&& d2[a as int][b as int] == v + 1
        &&& has_neighbor_at(d2, a as int, b as int, v as u32)
    } by {
        let (a, b) = waves[v][m];
        assert(d1[a as int][b as int] == v + 1);
        assert(d2[a as int][b as int] == d1[a as int][b as int]);
        lemma_grows_neighbor(d1, d2, h, w, a as int, b as int, v as u32);
    }
    assert forall|i: int, j: int| in_table(h, w, i, j) && 1 <= #[trigger] d2[i][j] <= upto implies waves[d2[i][j]
        - 1].contains((i as usize, j as usize)) by {
        if d1[i][j] == UNREACHED {
        } else {
            assert(d2[i][j] == d1[i][j]);
        }
    }
}

/// Every in-table neighbour of a face of distance at most `upto` is reached, at a distance
/// at most one more than that face's.
#[verifier::opaque]
pub open spec fn expanded(dv: Seq<Seq<u32>>, h: int, w: int, upto: int) -> bool {
    forall|a: int, b: int, c: int, d: int|
        #[trigger] adjacent(a, b, c, d) && in_table(h, w, a, b) && in_table(h, w, c, d) && dv[a][b] <= upto
            ==> dv[c][d] != UNREACHED && dv[c][d] <= dv[a][b] + 1
}

/// Growing the table with distances beyond `upto` keeps it expanded up to `upto`.
pub proof fn lemma_expanded_grows(d1: Seq<Seq<u32>>, d2: Seq<Seq<u32>>, h: int, w: int, upto: int)
    requires
        upto + 1 < UNREACHED,
        expanded(d1, h, w, upto),
        grows(d1, d2, h, w),
        forall|i: int, j: int|
            in_table(h, w, i, j) && d1[i][j] == UNREACHED ==> #[trigger] d2[i][j] == UNREACHED || d2[i][j]
                > upto,
    ensures
        expanded(d2, h, w, upto),
{
    reveal(expanded);
    assert forall|a: int, b: int, c: int, d: int|
        #[trigger] adjacent(a, b, c, d) && in_table(h, w, a, b) && in_table(h, w, c, d) && d2[a][b] <= upto
            implies d2[c][d] != UNREACHED && d2[c][d] <= d2[a][b] + 1 by {
        assert(d1[a][b] != UNREACHED);
        assert(d2[a][b] == d1[a][b]);
        assert(d1[c][d] != UNREACHED);
        assert(d2[c][d] == d1[c][d]);
    }
}

/// Once every face of distance `upto + 1` has all its in-table neighbours reached at distance
/// at most `upto + 2`, the table is expanded up to `upto + 1`.
pub proof fn lemma_expanded_step(dv: Seq<Seq<u32>>, wave: Seq<(usize, usize)>, h: int, w: int, upto: int)
    requires
        0 <= h <= usize::MAX,
        0 <= w <= usize::MAX,
        upto + 2 < UNREACHED,
        expanded(dv, h, w, upto),
        forall|a: int, b: int|
            in_table(h, w, a, b) && #[trigger] dv[a][b] == upto + 1 ==> wave.contains((a as usize, b as usize)),
        forall|j: int, c: int, d: int|
            0 <= j < wave.len() && in_table(h, w, c, d) && #[trigger] adjacent(
                wave[j].0 as int,
                wave[j].1 as int,
                c,
                d,
            ) ==> dv[c][d] != UNREACHED && dv[c][d] <= upto + 2,
    ensures
        expanded(dv, h, w, upto + 1),
{
    reveal(expanded);
    assert forall|a: int, b: int, c: int, d: int|
        #[trigger] adjacent(a, b, c, d) && in_table(h, w, a, b) && in_table(h, w, c, d) && dv[a][b] <= upto + 1
            implies dv[c][d] != UNREACHED && dv[c][d] <= dv[a][b] + 1 by {
        if dv[a][b] == upto + 1 {
            assert(wave.contains((a as usize, b as usize)));
            let j = choose|j: int| 0 <= j < wave.len() && wave[j] == (a as usize, b as usize);
            assert(adjacent(wave[j].0 as int, wave[j].1 as int, c, d));
        }
    }
}

/// Distances and wavefronts for carrying face velocities from known faces into unknown ones.
pub struct ExtrapolationPlan {
    /// Distance of each face from the known faces: 0 for a known face, `v + 1` for a face in
    /// wavefront `v`, `UNREACHED` for a face left alone.
    pub distance: Vec<Vec<u32>>,
    /// Wavefront `v` lists the faces of distance `v + 1`. Each is to be given the mean of its
    /// neighbours of smaller distance, wavefront by wavefront; there is always at least one.
    pub wavefronts: Vec<Vec<(usize, usize)>>,
}

impl ExtrapolationPlan {
    /// The plan for a table of `known` faces expanded `depth` times: wavefronts `0..=depth`, of
    /// which the first `depth` are to be filled in.
    pub open spec fn is_plan_for(&self, known: Seq<Seq<bool>>, depth: int) -> bool {
        let h = known.len() as int;
        let w = known[0].len() as int;
        let dv = table_view(self.distance@);
        let waves = table_view(self.wavefronts@);
        &&& waves.len() == depth + 1
        &&& settled(known, dv, waves, h, w, depth + 1)
        &&& forall|i: int, j: int|
            in_table(h, w, i, j) ==> #[trigger] dv[i][j] == UNREACHED || dv[i][j] <= depth + 1
        &&& expanded(dv, h, w, depth)
    }
}

/// Gives distance `cur + 2` to every unreached neighbour of face `(r0, c0)`, which has distance
/// `cur + 1`, visiting neighbours by offset, and appends those neighbours to `next`.
fn expand_face(
    dist: &mut Vec<Vec<u32>>,
    next: &mut Vec<(usize, usize)>,
    r0: usize,
    c0: usize,
    h: usize,
    w: usize,
    cur: u32,
    kv: Ghost<Seq<Seq<bool>>>,
    wv: Ghost<Seq<Seq<(usize, usize)>>>,
)
    requires
        h >= 1,
        h == kv@.len(),
        w == kv@[0].len(),
        cur + 3 < UNREACHED,
        wv@.len() == cur + 1,
        in_table(h as int, w as int, r0 as int, c0 as int),
        table_view(old(dist)@)[r0 as int][c0 as int] == cur + 1,
        settled(kv@, table_view(old(dist)@), wv@, h as int, w as int, cur + 1),
        forall|a: int, b: int|
            in_table(h as int, w as int, a, b) ==> #[trigger] table_view(old(dist)@)[a][b] == UNREACHED
                || table_view(old(dist)@)[a][b] <= cur + 2,
        old(next)@.no_duplicates(),
        forall|m: int|
            0 <= m < old(next)@.len() ==> in_table(h as int, w as int, #[trigger] old(next)@[m].0 as int, old(next)@[m].1 as int)
                && table_view(old(dist)@)[old(next)@[m].0 as int][old(next)@[m].1 as int] == cur + 2
                && has_neighbor_at(table_view(old(dist)@), old(next)@[m].0 as int, old(next)@[m].1 as int, (cur + 1) as u32),
        forall|a: int, b: int|
            in_table(h as int, w as int, a, b) && #[trigger] table_view(old(dist)@)[a][b] == cur + 2
                ==> old(next)@.contains((a as usize, b as usize)),
        expanded(table_view(old(dist)@), h as int, w as int, cur as int),
    ensures
        is_table(table_view(final(dist)@), h as int, w as int),
        forall|a: int, b: int|
            in_table(h as int, w as int, a, b) && table_view(old(dist)@)[a][b] != UNREACHED
                ==> #[trigger] table_view(final(dist)@)[a][b] == table_view(old(dist)@)[a][b],
        forall|a: int, b: int|
            in_table(h as int, w as int, a, b) && table_view(old(dist)@)[a][b] == UNREACHED
                ==> #[trigger] table_view(final(dist)@)[a][b] == UNREACHED || table_view(final(dist)@)[a][b] == cur + 2,
        settled(kv@, table_view(final(dist)@), wv@, h as int, w as int, cur + 1),
        forall|a: int, b: int|
            in_table(h as int, w as int, a, b) ==> #[trigger] table_view(final(dist)@)[a][b] == UNREACHED
                || table_view(final(dist)@)[a][b] <= cur + 2,
        final(next)@.no_duplicates(),
        forall|m: int|
            0 <= m < final(next)@.len() ==> in_table(h as int, w as int, #[trigger] final(next)@[m].0 as int, final(next)@[m].1 as int)
                && table_view(final(dist)@)[final(next)@[m].0 as int][final(next)@[m].1 as int] == cur + 2
                && has_neighbor_at(table_view(final(dist)@), final(next)@[m].0 as int, final(next)@[m].1 as int, (cur + 1) as u32),
        forall|a: int, b: int|
            in_table(h as int, w as int, a, b) && #[trigger] table_view(final(dist)@)[a][b] == cur + 2
                ==> final(next)@.contains((a as usize, b as usize)),
        expanded(table_view(final(dist)@), h as int, w as int, cur as int),
        forall|c: int, d: int|
            in_table(h as int, w as int, c, d) && #[trigger] adjacent(r0 as int, c0 as int, c, d)
                ==> table_view(final(dist)@)[c][d] != UNREACHED && table_view(final(dist)@)[c][d] <= cur + 2,
{
    let ghost d_start = table_view(dist@);
    let mut k: usize = 0;
    while k < 8
        invariant
            h >= 1,
            h == kv@.len(),
            w == kv@[0].len(),
            cur + 3 < UNREACHED,
            wv@.len() == cur + 1,
            in_table(h as int, w as int, r0 as int, c0 as int),
            is_table(d_start, h as int, w as int),
            table_view(dist@)[r0 as int][c0 as int] == cur + 1,
            settled(kv@, table_view(dist@), wv@, h as int, w as int, cur + 1),
            forall|a: int, b: int|
                in_table(h as int, w as int, a, b) ==> #[trigger] table_view(dist@)[a][b] == UNREACHED
                    || table_view(dist@)[a][b] <= cur + 2,
            next@.no_duplicates(),
            forall|m: int|
                0 <= m < next@.len() ==> in_table(h as int, w as int, #[trigger] next@[m].0 as int, next@[m].1 as int)
                    && table_view(dist@)[next@[m].0 as int][next@[m].1 as int] == cur + 2
                    && has_neighbor_at(table_view(dist@), next@[m].0 as int, next@[m].1 as int, (cur + 1) as u32),
            forall|a: int, b: int|
                in_table(h as int, w as int, a, b) && #[trigger] table_view(dist@)[a][b] == cur + 2
                    ==> next@.contains((a as usize, b as usize)),
            expanded(table_view(dist@), h as int, w as int, cur as int),
            forall|a: int, b: int|
                in_table(h as int, w as int, a, b) && d_start[a][b] != UNREACHED
                    ==> #[trigger] table_view(dist@)[a][b] == d_start[a][b],
            forall|a: int, b: int|
                in_table(h as int, w as int, a, b) && d_start[a][b] == UNREACHED
                    ==> #[trigger] table_view(dist@)[a][b] == UNREACHED || table_view(dist@)[a][b] == cur + 2,
            k <= 8,
            forall|m: int|
                0 <= m < k && in_table(h as int, w as int, r0 + offset_row(m), c0 + offset_col(m))
                    ==> table_view(dist@)[r0 + #[trigger] offset_row(m)][c0 + offset_col(m)] != UNREACHED
                    && table_view(dist@)[r0 + offset_row(m)][c0 + offset_col(m)] <= cur + 2,
        decreases 8 - k,
    {
        if let Some((r2, c2)) = neighbor(r0, c0, k, h, w) {
            let ghost dv = table_view(dist@);
            proof {
                assert(dv[r2 as int].len() == w);
                assert(dv[r2 as int][c2 as int] == dist@[r2 as int]@[c2 as int]);
            }
            if dist[r2][c2] == UNREACHED {
                let ghost before = next@;
                proof {
                    if next@.contains((r2, c2)) {
                        let m = choose|m: int| 0 <= m < next@.len() && next@[m] == (r2, c2);
                    }
                }
                dist[r2][c2] = cur + 2;
                next.push((r2, c2));
                proof {
                    let dn = table_view(dist@);
                    assert forall|a: int| 0 <= a < h implies (#[trigger] dn[a]).len() == w by {
                        if a != r2 {
                            assert(dn[a] == dv[a]);
                        }
                    }
                    assert forall|a: int, b: int| in_table(h as int, w as int, a, b) && dv[a][b] != UNREACHED
                        implies #[trigger] dn[a][b] == dv[a][b] by {}
                    assert(grows(dv, dn, h as int, w as int));
                    assert forall|a: int, b: int| in_table(h as int, w as int, a, b) && dv[a][b] == UNREACHED
                        implies #[trigger] dn[a][b] == UNREACHED || dn[a][b] > cur + 1 by {
                        if a != r2 || b != c2 {
                            assert(dn[a][b] == dv[a][b]);
                        }
                    }
                    lemma_settled_grows(kv@, dv, dn, wv@, h as int, w as int, cur + 1);
                    lemma_expanded_grows(dv, dn, h as int, w as int, cur as int);
                    assert forall|a: int, b: int| in_table(h as int, w as int, a, b) && d_start[a][b] != UNREACHED
                        implies #[trigger] dn[a][b] == d_start[a][b] by {
                        assert(dv[a][b] == d_start[a][b]);
                    }
                    assert forall|a: int, b: int| in_table(h as int, w as int, a, b) && d_start[a][b] == UNREACHED
                        implies #[trigger] dn[a][b] == UNREACHED || dn[a][b] == cur + 2 by {
                        assert(dv[a][b] == UNREACHED || dv[a][b] == cur + 2);
                        if a != r2 || b != c2 {
                            assert(dn[a][b] == dv[a][b]);
                        }
                    }
                    assert forall|m: int|
                        0 <= m < k + 1 && in_table(h as int, w as int, r0 + offset_row(m), c0 + offset_col(m))
                            implies dn[r0 + #[trigger] offset_row(m)][c0 + offset_col(m)] != UNREACHED
                            && dn[r0 + offset_row(m)][c0 + offset_col(m)] <= cur + 2 by {
                        if m < k {
                            assert(dv[r0 + offset_row(m)][c0 + offset_col(m)] != UNREACHED);
                        }
                    }
                    assert forall|a: int, b: int| in_table(h as int, w as int, a, b) implies #[trigger] dn[a][b]
                        == UNREACHED || dn[a][b] <= cur + 2 by {
                        if a != r2 || b != c2 {
                            assert(dn[a][b] == dv[a][b]);
                        }
                    }
                    lemma_offset_is_adjacent(r0 as int, c0 as int, k as int);
                    assert(adjacent(r0 as int, c0 as int, r2 as int, c2 as int));
                    assert(adjacent(r2 as int, c2 as int, r0 as int, c0 as int));
                    assert(dn[r0 as int][c0 as int] == cur + 1);
                    assert(dn[0].len() == w);
                    assert(has_neighbor_at(dn, r2 as int, c2 as int, (cur + 1) as u32));
                    assert forall|m: int| 0 <= m < next@.len() implies in_table(h as int, w as int, #[trigger] next@[m].0 as int, next@[m].1 as int)
                        && dn[next@[m].0 as int][next@[m].1 as int] == cur + 2
                        && has_neighbor_at(dn, next@[m].0 as int, next@[m].1 as int, (cur + 1) as u32) by {
                        if m < before.len() {
                            assert(next@[m] == before[m]);
                            assert(dv[before[m].0 as int][before[m].1 as int] == cur + 2);
                            lemma_grows_neighbor(dv, dn, h as int, w as int, before[m].0 as int, before[m].1 as int, (cur + 1) as u32);
                        }
                    }
                    assert forall|a: int, b: int| in_table(h as int, w as int, a, b) && #[trigger] dn[a][b] == cur + 2
                        implies next@.contains((a as usize, b as usize)) by {
                        if a != r2 || b != c2 {
                            assert(dn[a][b] == dv[a][b]);
                            let m = choose|m: int| 0 <= m < before.len() && before[m] == (a as usize, b as usize);
                            assert(next@[m] == (a as usize, b as usize));
                        } else {
                            assert(next@[before.len() as int] == (r2, c2));
                        }
                    }
                    assert forall|x: int, y: int| 0 <= x < next@.len() && 0 <= y < next@.len() && x != y
                        implies next@[x] != next@[y] by {
                        if x == before.len() {
                            assert(before[y] == next@[y]);
                            assert(dv[before[y].0 as int][before[y].1 as int] == cur + 2);
                        } else if y == before.len() {
                            assert(before[x] == next@[x]);
                            assert(dv[before[x].0 as int][before[x].1 as int] == cur + 2);
                        } else {
                            assert(before[x] != before[y]);
                        }
                    }
                }
            }
        }
        k += 1;
    }
    proof {
        let dv = table_view(dist@);
        assert forall|c: int, d: int|
            in_table(h as int, w as int, c, d) && #[trigger] adjacent(r0 as int, c0 as int, c, d)
                implies dv[c][d] != UNREACHED && dv[c][d] <= cur + 2 by {
            let m = lemma_adjacent_has_offset(r0 as int, c0 as int, c, d);
            assert(dv[r0 + offset_row(m)][c0 + offset_col(m)] != UNREACHED);
        }
    }
}

/// Expands wavefront `cur` (the faces of distance `cur + 1`): each of its faces, in order, gives
/// distance `cur + 2` to its unreached neighbours. Returns those neighbours, the next wavefront.
fn expand_wave(
    dist: &mut Vec<Vec<u32>>,
    wave: &Vec<(usize, usize)>,
    h: usize,
    w: usize,
    cur: u32,
    kv: Ghost<Seq<Seq<bool>>>,
    wv: Ghost<Seq<Seq<(usize, usize)>>>,
) -> (next: Vec<(usize, usize)>)
    requires
        h >= 1,
        h == kv@.len(),
        w == kv@[0].len(),
        cur + 3 < UNREACHED,
        wv@.len() == cur + 1,
        wv@[cur as int] == wave@,
        settled(kv@, table_view(old(dist)@), wv@, h as int, w as int, cur + 1),
        forall|i: int, j: int|
            in_table(h as int, w as int, i, j) ==> #[trigger] table_view(old(dist)@)[i][j] == UNREACHED
                || table_view(old(dist)@)[i][j] <= cur + 1,
        expanded(table_view(old(dist)@), h as int, w as int, cur as int),
    ensures
        settled(kv@, table_view(final(dist)@), wv@.push(next@), h as int, w as int, cur + 2),
        forall|i: int, j: int|
            in_table(h as int, w as int, i, j) ==> #[trigger] table_view(final(dist)@)[i][j] == UNREACHED
                || table_view(final(dist)@)[i][j] <= cur + 2,
        expanded(table_view(final(dist)@), h as int, w as int, cur + 1),
{
        let mut next: Vec<(usize, usize)> = Vec::new();
        let count = wave.len();
        let mut i: usize = 0;
        while i < count
            invariant
                h >= 1,
                h == kv@.len(),
                w == kv@[0].len(),
                cur + 3 < UNREACHED,
                wv@[cur as int] == wave@,
                wv@.len() == cur + 1,
                count == wv@[cur as int].len(),
                i <= count,
                settled(kv@, table_view(dist@), wv@, h as int, w as int, cur + 1),
                forall|a: int, b: int|
                    in_table(h as int, w as int, a, b) ==> #[trigger] table_view(dist@)[a][b] == UNREACHED
                        || table_view(dist@)[a][b] <= cur + 2,
                next@.no_duplicates(),
                forall|m: int|
                    0 <= m < next@.len() ==> in_table(h as int, w as int, #[trigger] next@[m].0 as int, next@[m].1 as int)
                        && table_view(dist@)[next@[m].0 as int][next@[m].1 as int] == cur + 2
                        && has_neighbor_at(table_view(dist@), next@[m].0 as int, next@[m].1 as int, (cur + 1) as u32),
                forall|a: int, b: int|
                    in_table(h as int, w as int, a, b) && #[trigger] table_view(dist@)[a][b] == cur + 2
                        ==> next@.contains((a as usize, b as usize)),
                forall|j: int, c: int, d: int|
                    0 <= j < i && in_table(h as int, w as int, c, d) && #[trigger] adjacent(
                        wv@[cur as int][j].0 as int,
                        wv@[cur as int][j].1 as int,
                        c,
                        d,
                    ) ==> table_view(dist@)[c][d] != UNREACHED && table_view(dist@)[c][d] <= cur + 2,
                expanded(table_view(dist@), h as int, w as int, cur as int),
            decreases count - i,
        {
            let (r0, c0) = wave[i];
            proof {
                assert(wv@[cur as int][i as int] == (r0, c0));
                assert(table_view(dist@)[r0 as int][c0 as int] == cur + 1);
            }
            let ghost d_before = table_view(dist@);
            expand_face(dist, &mut next, r0, c0, h, w, cur, kv, wv);
            proof {
                let dn = table_view(dist@);
                assert forall|j: int, c: int, d: int|
                    0 <= j < i + 1 && in_table(h as int, w as int, c, d) && #[trigger] adjacent(
                        wv@[cur as int][j].0 as int,
                        wv@[cur as int][j].1 as int,
                        c,
                        d,
                    ) implies dn[c][d] != UNREACHED && dn[c][d] <= cur + 2 by {
                    if j < i {
                        assert(d_before[c][d] != UNREACHED);
                    } else {
                        assert(adjacent(r0 as int, c0 as int, c, d));
                    }
                }
            }
            i += 1;
        }
        let ghost nv = next@;
        proof {
            let dv = table_view(dist@);
            let wn = wv@.push(nv);
            assert forall|v: int, m: int| 0 <= v < wn.len() && 0 <= m < wn[v].len() implies {
                let (a, b) = #[trigger] wn[v][m];
                &&& in_table(h as int, w as int, a as int, b as int)
                &&& dv[a as int][b as int] == v + 1
                &&& has_neighbor_at(dv, a as int, b as int, v as u32)
            } by {
                if v < wv@.len() {
                    assert(wn[v] == wv@[v]);
                    assert(wv@[v][m] == wn[v][m]);
                } else {
                    assert(wn[v] == nv);
                    assert(nv[m] == wn[v][m]);
                }
            }
            assert forall|v: int| 0 <= v < wn.len() implies (#[trigger] wn[v]).no_duplicates() by {
                if v < wv@.len() {
                    assert(wn[v] == wv@[v]);
                }
            }
            assert forall|a: int, b: int| in_table(h as int, w as int, a, b) && 1 <= #[trigger] dv[a][b] <= cur + 2
                implies wn[dv[a][b] - 1].contains((a as usize, b as usize)) by {
                if dv[a][b] <= cur + 1 {
                    assert(wn[dv[a][b] - 1] == wv@[dv[a][b] - 1]);
                } else {
                    assert(wn[dv[a][b] - 1] == nv);
                }
            }
            assert forall|a: int, b: int| in_table(h as int, w as int, a, b) && #[trigger] dv[a][b] == cur + 1
                implies wave@.contains((a as usize, b as usize)) by {
                assert(wv@[dv[a][b] - 1] == wave@);
            }
            lemma_expanded_step(dv, wave@, h as int, w as int, cur as int);
        }
        next
}

/// Builds the extrapolation plan of a table of faces whose velocity is known: the known faces
/// get distance 0; the unknown faces next to a known one get distance 1 and form the first
/// wavefront, in row-major order; then, `depth` times, the unreached neighbours of the latest
/// wavefront's faces, visited in order and by neighbour offset, get the next distance and form
/// the next wavefront.
pub fn plan_extrapolation(known: &Vec<Vec<bool>>, depth: u32) -> (r: ExtrapolationPlan)
    requires
        known@.len() >= 1,
        is_table(table_view(known@), known@.len() as int, known@[0]@.len() as int),
        depth + 2 < UNREACHED,
    ensures
        r.is_plan_for(table_view(known@), depth as int),
{
    let h = known.len();
    let w = known[0].len();
    let ghost kv = table_view(known@);
    proof {
        assert(kv[0].len() == w);
    }
    let mut dist = initial_distances(known);
    let ghost d0 = table_view(dist@);
    let first = first_wavefront(&mut dist, h, w);
    let ghost d1 = table_view(dist@);
    proof {
        assert forall|i: int, j: int| in_table(h as int, w as int, i, j) implies (#[trigger] d0[i][j] == 0
            <==> kv[i][j]) by {}
        assert forall|i: int, j: int| in_table(h as int, w as int, i, j) implies (#[trigger] d1[i][j] == 0
            <==> d0[i][j] == 0) by {}
        assert forall|i: int, j: int| in_table(h as int, w as int, i, j) implies (#[trigger] d0[i][j] == 0
            <==> kv[i][j] == true) by {}
        assert forall|i: int, j: int| in_table(h as int, w as int, i, j) implies (has_neighbor_at(d0, i, j, 0)
            <==> #[trigger] has_known_neighbor(kv, i, j)) by {
            assert(d0[0].len() == w);
            if has_neighbor_at(d0, i, j, 0) {
                let (r2, c2) = choose|r2: int, c2: int|
                    in_table(d0.len() as int, d0[0].len() as int, r2, c2) && adjacent(i, j, r2, c2)
                        && #[trigger] d0[r2][c2] == 0;
                assert(kv[r2][c2]);
            }
            if has_known_neighbor(kv, i, j) {
                let (r2, c2) = choose|r2: int, c2: int|
                    in_table(kv.len() as int, kv[0].len() as int, r2, c2) && adjacent(i, j, r2, c2)
                        && #[trigger] kv[r2][c2];
                assert(d0[r2][c2] == 0);
            }
        }
        let waves0 = seq![first@];
        assert forall|v: int, m: int| 0 <= v < waves0.len() && 0 <= m < waves0[v].len() implies {
            let (a, b) = #[trigger] waves0[v][m];
            &&& in_table(h as int, w as int, a as int, b as int)
            &&& d1[a as int][b as int] == v + 1
            &&& has_neighbor_at(d1, a as int, b as int, v as u32)
        } by {
            let (a, b) = waves0[v][m];
            assert(first@[m] == (a, b));
            assert(d1[a as int][b as int] == 1);
            assert(has_neighbor_at(d0, a as int, b as int, 0));
            lemma_same_cells_at(d0, d1, 0, h as int, w as int, a as int, b as int);
        }
        assert(settled(kv, d1, waves0, h as int, w as int, 1));
    }
    let mut waves: Vec<Vec<(usize, usize)>> = Vec::new();
    waves.push(first);
    proof {
        assert(table_view(waves@) =~= seq![first@]);
    }
    proof {
        reveal(expanded);
        let dv = table_view(dist@);
        assert forall|a: int, b: int, c: int, d: int|
            #[trigger] adjacent(a, b, c, d) && in_table(h as int, w as int, a, b) && in_table(h as int, w as int, c, d)
                && dv[a][b] <= 0 implies dv[c][d] != UNREACHED && dv[c][d] <= dv[a][b] + 1 by {
            assert(kv[a][b]);
            assert(adjacent(c, d, a, b));
            assert(has_known_neighbor(kv, c, d));
            if !kv[c][d] {
                assert(dv[c][d] == 1);
            } else {
                assert(dv[c][d] == 0);
            }
        }
    }
    let mut cur: u32 = 0;
    while cur < depth
        invariant
            h >= 1,
            h == kv.len(),
            w == kv[0].len(),
            kv == table_view(known@),
            depth + 2 < UNREACHED,
            cur <= depth,
            table_view(waves@).len() == cur + 1,
            settled(kv, table_view(dist@), table_view(waves@), h as int, w as int, cur + 1),
            forall|i: int, j: int|
                in_table(h as int, w as int, i, j) ==> #[trigger] table_view(dist@)[i][j] == UNREACHED
                    || table_view(dist@)[i][j] <= cur + 1,
            expanded(table_view(dist@), h as int, w as int, cur as int),
        decreases depth - cur,
    {
        let ghost wv = table_view(waves@);
        let next = expand_wave(&mut dist, &waves[cur as usize], h, w, cur, Ghost(kv), Ghost(wv));
        let ghost nv = next@;
        waves.push(next);
        proof {
            assert(table_view(waves@) =~= wv.push(nv));
        }
        cur += 1;
    }
    ExtrapolationPlan { distance: dist, wavefronts: waves }
}

impl ExtrapolationPlan {
    /// The neighbours of face `(row, col)` whose distance is smaller than its own, by
    /// increasing neighbour offset: the faces whose velocities it averages.
    pub fn sources(&self, row: usize, col: usize) -> (r: Vec<(usize, usize)>)
        requires
            self.distance@.len() >= 1,
            is_table(table_view(self.distance@), self.distance@.len() as int, self.distance@[0]@.len() as int),
            row < self.distance@.len(),
            col < self.distance@[0]@.len(),
        ensures
            forall|i: int|
                0 <= i < r@.len() ==> {
                    let (a, b) = #[trigger] r@[i];
                    &&& in_table(self.distance@.len() as int, self.distance@[0]@.len() as int, a as int, b as int)
                    &&& adjacent(row as int, col as int, a as int, b as int)
                    &&& table_view(self.distance@)[a as int][b as int] < table_view(self.distance@)[row as int][col as int]
                },
            forall|a: int, b: int|
                in_table(self.distance@.len() as int, self.distance@[0]@.len() as int, a, b) && adjacent(
                    row as int,
                    col as int,
                    a,
                    b,
                ) && #[trigger] table_view(self.distance@)[a][b] < table_view(self.distance@)[row as int][col as int]
                    ==> r@.contains((a as usize, b as usize)),
    {
        let h = self.distance.len();
        let w = self.distance[0].len();
        let ghost dv = table_view(self.distance@);
        proof {
            assert(dv[row as int].len() == w);
        }
        let own = self.distance[row][col];
        let mut out: Vec<(usize, usize)> = Vec::new();
        let mut k: usize = 0;
        while k < 8
            invariant
                h == self.distance@.len(),
                w == self.distance@[0]@.len(),
                dv == table_view(self.distance@),
                is_table(dv, h as int, w as int),
                row < h,
                col < w,
                own == dv[row as int][col as int],
                k <= 8,
                forall|i: int|
                    0 <= i < out@.len() ==> {
                        let (a, b) = #[trigger] out@[i];
                        &&& in_table(h as int, w as int, a as int, b as int)
                        &&& adjacent(row as int, col as int, a as int, b as int)
                        &&& dv[a as int][b as int] < own
                    },
                forall|m: int|
                    0 <= m < k && in_table(h as int, w as int, row + offset_row(m), col + offset_col(m))
                        && dv[row + offset_row(m)][col + offset_col(m)] < own ==> out@.contains(
                        ((row + #[trigger] offset_row(m)) as usize, (col + offset_col(m)) as usize),
                    ),
            decreases 8 - k,
        {
            let ghost before = out@;
            if let Some((a, b)) = neighbor(row, col, k, h, w) {
                proof {
                    lemma_offset_is_adjacent(row as int, col as int, k as int);
                    assert(dv[a as int].len() == w);
                    assert(dv[a as int][b as int] == self.distance@[a as int]@[b as int]);
                    assert(adjacent(row as int, col as int, a as int, b as int));
                }
                if self.distance[a][b] < own {
                    out.push((a, b));
                    proof {
                        assert(out@[before.len() as int] == (a, b));
                    }
                }
            }
            proof {
                assert forall|i: int| 0 <= i < out@.len() implies {
                    let (a, b) = #[trigger] out@[i];
                    &&& in_table(h as int, w as int, a as int, b as int)
                    &&& adjacent(row as int, col as int, a as int, b as int)
                    &&& dv[a as int][b as int] < own
                } by {
                    if i < before.len() {
                        assert(out@[i] == before[i]);
                    }
                }
                assert forall|m: int|
                    0 <= m < k + 1 && in_table(h as int, w as int, row + offset_row(m), col + offset_col(m))
                        && dv[row + offset_row(m)][col + offset_col(m)] < own implies out@.contains(
                    ((row + #[trigger] offset_row(m)) as usize, (col + offset_col(m)) as usize),
                ) by {
                    if m < k {
                        let c = ((row + offset_row(m)) as usize, (col + offset_col(m)) as usize);
                        let i = choose|i: int| 0 <= i < before.len() && before[i] == c;
                        assert(out@[i] == c);
                    }
                }
            }
            k += 1;
        }
        proof {
            assert forall|a: int, b: int|
                in_table(h as int, w as int, a, b) && adjacent(row as int, col as int, a, b)
                    && #[trigger] dv[a][b] < own implies out@.contains((a as usize, b as usize)) by {
                let m = lemma_adjacent_has_offset(row as int, col as int, a, b);
                assert(out@.contains(((row + offset_row(m)) as usize, (col + offset_col(m)) as usize)));
            }
        }
        out
    }
}

} // verus!
