//! Sorting a list of coordinate pairs and dropping repeated pairs.
use vstd::prelude::*;

verus! {

/// Whether `s` holds the pair `(x, y)`.
pub open spec fn has_pair_points(s: Seq<[i32; 2]>, x: int, y: int) -> bool {
    exists|i: int| 0 <= i < s.len() && #[trigger] s[i][0] == x && s[i][1] == y
}

/// Lexicographic order on pairs.
pub open spec fn pair_lt_points(a: [i32; 2], b: [i32; 2]) -> bool {
    a[0] < b[0] || (a[0] == b[0] && a[1] < b[1])
}

/// Strictly increasing in lexicographic order, hence without duplicates.
pub open spec fn strictly_sorted_points(s: Seq<[i32; 2]>) -> bool {
    forall|i: int, j: int| 0 <= i < j < s.len() ==> pair_lt_points(#[trigger] s[i], #[trigger] s[j])
}

/// The pairs of `v`, sorted, each once.
pub fn sort_dedup_points(v: &Vec<[i32; 2]>) -> (r: Vec<[i32; 2]>)
    ensures
        strictly_sorted_points(r@),
        forall|x: int, y: int| #[trigger] has_pair_points(r@, x, y) == has_pair_points(v@, x, y),
{
    let mut out: Vec<[i32; 2]> = Vec::new();
    let mut i: usize = 0;
    while i < v.len()
        invariant
            i <= v@.len(),
            strictly_sorted_points(out@),
            forall|x: int, y: int|
                #[trigger] has_pair_points(out@, x, y) == has_pair_points(v@.subrange(0, i as int), x, y),
        decreases v@.len() - i,
    {
        let e = v[i];
        let mut pos: usize = 0;
        while pos < out.len() && pair_lt_exec_points(&out[pos], &e)
            invariant
                pos <= out@.len(),
                forall|a: int| 0 <= a < pos ==> pair_lt_points(#[trigger] out@[a], e),
            decreases out@.len() - pos,
        {
            pos = pos + 1;
        }
        let ghost before = out@;
        let ghost vi = v@.subrange(0, i as int);
        let ghost vn = v@.subrange(0, i as int + 1);
        proof {
            assert(vn == vi.push(e));
            assert forall|x: int, y: int| #[trigger] has_pair_points(vn, x, y) == (has_pair_points(vi, x, y) || (x == e[0] && y == e[1])) by {
                if has_pair_points(vn, x, y) {
                    let k = choose|k: int| 0 <= k < vn.len() && #[trigger] vn[k][0] == x && vn[k][1] == y;
                    if k < vi.len() {
                        assert(vi[k] == vn[k]);
                    }
                }
                if has_pair_points(vi, x, y) {
                    let k = choose|k: int| 0 <= k < vi.len() && #[trigger] vi[k][0] == x && vi[k][1] == y;
                    assert(vn[k] == vi[k]);
                }
                if x == e[0] && y == e[1] {
                    assert(vn[i as int] == e);
                }
            }
        }
        if pos < out.len() && out[pos][0] == e[0] && out[pos][1] == e[1] {
            proof {
                assert forall|x: int, y: int| #[trigger] has_pair_points(out@, x, y) == has_pair_points(vn, x, y) by {
                    if x == e[0] && y == e[1] {
                        assert(out@[pos as int][0] == x && out@[pos as int][1] == y);
                    }
                }
            }
        } else {
            out.insert(pos, e);
            proof {
                assert(out@ == before.insert(pos as int, e));
                assert forall|a: int, b: int| 0 <= a < b < out@.len() implies pair_lt_points(#[trigger] out@[a], #[trigger] out@[b]) by {
                    if b < pos {
                    } else if b == pos {
                    } else if a < pos {
                        assert(out@[b] == before[b - 1]);
                        if pos < before.len() {
                            assert(!pair_lt_points(before[pos as int], e));
                            if b - 1 > pos {
                                assert(pair_lt_points(before[pos as int], before[b - 1]));
                            }
                        }
                    } else if a == pos {
                        assert(out@[b] == before[b - 1]);
                        assert(!pair_lt_points(before[pos as int], e));
                        if b - 1 > pos {
                            assert(pair_lt_points(before[pos as int], before[b - 1]));
                        }
                    } else {
                        assert(out@[a] == before[a - 1]);
                        assert(out@[b] == before[b - 1]);
                    }
                }
                assert forall|x: int, y: int| #[trigger] has_pair_points(out@, x, y) == has_pair_points(vn, x, y) by {
                    if has_pair_points(out@, x, y) {
                        let k = choose|k: int| 0 <= k < out@.len() && #[trigger] out@[k][0] == x && out@[k][1] == y;
                        if k < pos {
                            assert(before[k] == out@[k]);
                        } else if k > pos {
                            assert(before[k - 1] == out@[k]);
                        }
                    }
                    if has_pair_points(before, x, y) {
                        let k = choose|k: int| 0 <= k < before.len() && #[trigger] before[k][0] == x && before[k][1] == y;
                        if k < pos {
                            assert(before[k] == out@[k]);
                        } else {
                            assert(before[k] == out@[k + 1]);
                        }
                    }
                    if x == e[0] && y == e[1] {
                        assert(out@[pos as int] == e);
                    }
                }
            }
        }
        i = i + 1;
    }
    proof {
        assert(v@.subrange(0, v@.len() as int) == v@);
    }
    out
}

fn pair_lt_exec_points(a: &[i32; 2], b: &[i32; 2]) -> (r: bool)
    ensures
        r == pair_lt_points(*a, *b),
{
    a[0] < b[0] || (a[0] == b[0] && a[1] < b[1])
}

/// Whether `s` holds the pair `(x, y)`.
pub open spec fn has_pair_inner(s: Seq<[usize; 2]>, x: int, y: int) -> bool {
    exists|i: int| 0 <= i < s.len() && #[trigger] s[i][0] == x && s[i][1] == y
}

/// Lexicographic order on pairs.
pub open spec fn pair_lt_inner(a: [usize; 2], b: [usize; 2]) -> bool {
    a[0] < b[0] || (a[0] == b[0] && a[1] < b[1])
}

/// Strictly increasing in lexicographic order, hence without duplicates.
pub open spec fn strictly_sorted_inner(s: Seq<[usize; 2]>) -> bool {
    forall|i: int, j: int| 0 <= i < j < s.len() ==> pair_lt_inner(#[trigger] s[i], #[trigger] s[j])
}

/// The pairs of `v`, sorted, each once.
pub fn sort_dedup_inner(v: &Vec<[usize; 2]>) -> (r: Vec<[usize; 2]>)
    ensures
        strictly_sorted_inner(r@),
        forall|x: int, y: int| #[trigger] has_pair_inner(r@, x, y) == has_pair_inner(v@, x, y),
{
    let mut out: Vec<[usize; 2]> = Vec::new();
    let mut i: usize = 0;
    while i < v.len()
        invariant
            i <= v@.len(),
            strictly_sorted_inner(out@),
            forall|x: int, y: int|
                #[trigger] has_pair_inner(out@, x, y) == has_pair_inner(v@.subrange(0, i as int), x, y),
        decreases v@.len() - i,
    {
        let e = v[i];
        let mut pos: usize = 0;
        while pos < out.len() && pair_lt_exec_inner(&out[pos], &e)
            invariant
                pos <= out@.len(),
                forall|a: int| 0 <= a < pos ==> pair_lt_inner(#[trigger] out@[a], e),
            decreases out@.len() - pos,
        {
            pos = pos + 1;
        }
        let ghost before = out@;
        let ghost vi = v@.subrange(0, i as int);
        let ghost vn = v@.subrange(0, i as int + 1);
        proof {
            assert(vn == vi.push(e));
            assert forall|x: int, y: int| #[trigger] has_pair_inner(vn, x, y) == (has_pair_inner(vi, x, y) || (x == e[0] && y == e[1])) by {
                if has_pair_inner(vn, x, y) {
                    let k = choose|k: int| 0 <= k < vn.len() && #[trigger] vn[k][0] == x && vn[k][1] == y;
                    if k < vi.len() {
                        assert(vi[k] == vn[k]);
                    }
                }
                if has_pair_inner(vi, x, y) {
                    let k = choose|k: int| 0 <= k < vi.len() && #[trigger] vi[k][0] == x && vi[k][1] == y;
                    assert(vn[k] == vi[k]);
                }
                if x == e[0] && y == e[1] {
                    assert(vn[i as int] == e);
                }
            }
        }
        if pos < out.len() && out[pos][0] == e[0] && out[pos][1] == e[1] {
            proof {
                assert forall|x: int, y: int| #[trigger] has_pair_inner(out@, x, y) == has_pair_inner(vn, x, y) by {
                    if x == e[0] && y == e[1] {
                        assert(out@[pos as int][0] == x && out@[pos as int][1] == y);
                    }
                }
            }
        } else {
            out.insert(pos, e);
            proof {
                assert(out@ == before.insert(pos as int, e));
                assert forall|a: int, b: int| 0 <= a < b < out@.len() implies pair_lt_inner(#[trigger] out@[a], #[trigger] out@[b]) by {
                    if b < pos {
                    } else if b == pos {
                    } else if a < pos {
                        assert(out@[b] == before[b - 1]);
                        if pos < before.len() {
                            assert(!pair_lt_inner(before[pos as int], e));
                            if b - 1 > pos {
                                assert(pair_lt_inner(before[pos as int], before[b - 1]));
                            }
                        }
                    } else if a == pos {
                        assert(out@[b] == before[b - 1]);
                        assert(!pair_lt_inner(before[pos as int], e));
                        if b - 1 > pos {
                            assert(pair_lt_inner(before[pos as int], before[b - 1]));
                        }
                    } else {
                        assert(out@[a] == before[a - 1]);
                        assert(out@[b] == before[b - 1]);
                    }
                }
                assert forall|x: int, y: int| #[trigger] has_pair_inner(out@, x, y) == has_pair_inner(vn, x, y) by {
                    if has_pair_inner(out@, x, y) {
                        let k = choose|k: int| 0 <= k < out@.len() && #[trigger] out@[k][0] == x && out@[k][1] == y;
                        if k < pos {
                            assert(before[k] == out@[k]);
                        } else if k > pos {
                            assert(before[k - 1] == out@[k]);
                        }
                    }
                    if has_pair_inner(before, x, y) {
                        let k = choose|k: int| 0 <= k < before.len() && #[trigger] before[k][0] == x && before[k][1] == y;
                        if k < pos {
                            assert(before[k] == out@[k]);
                        } else {
                            assert(before[k] == out@[k + 1]);
                        }
                    }
                    if x == e[0] && y == e[1] {
                        assert(out@[pos as int] == e);
                    }
                }
            }
        }
        i = i + 1;
    }
    proof {
        assert(v@.subrange(0, v@.len() as int) == v@);
    }
    out
}

fn pair_lt_exec_inner(a: &[usize; 2], b: &[usize; 2]) -> (r: bool)
    ensures
        r == pair_lt_inner(*a, *b),
{
    a[0] < b[0] || (a[0] == b[0] && a[1] < b[1])
}


/// Appending keeps every pair and adds the new one.
pub proof fn lemma_has_pair_points_push(s: Seq<[i32; 2]>, e: [i32; 2], x: int, y: int)
    ensures
        has_pair_points(s, x, y) ==> has_pair_points(s.push(e), x, y),
        has_pair_points(s.push(e), e[0] as int, e[1] as int),
{
    if has_pair_points(s, x, y) {
        let k = choose|k: int| 0 <= k < s.len() && #[trigger] s[k][0] == x && s[k][1] == y;
        assert(s.push(e)[k] == s[k]);
    }
    assert(s.push(e)[s.len() as int] == e);
}


/// Appending keeps every pair and adds the new one.
pub proof fn lemma_has_pair_inner_push(s: Seq<[usize; 2]>, e: [usize; 2], x: int, y: int)
    ensures
        has_pair_inner(s, x, y) ==> has_pair_inner(s.push(e), x, y),
        has_pair_inner(s.push(e), e[0] as int, e[1] as int),
{
    if has_pair_inner(s, x, y) {
        let k = choose|k: int| 0 <= k < s.len() && #[trigger] s[k][0] == x && s[k][1] == y;
        assert(s.push(e)[k] == s[k]);
    }
    assert(s.push(e)[s.len() as int] == e);
}

} // verus!
