use vstd::prelude::*;

verus! {

/// Each element is smaller than the next: sorted, without repeats.
pub open spec fn strictly_increasing(s: Seq<u32>) -> bool {
    forall|i: int, j: int| 0 <= i < j < s.len() ==> s[i] < s[j]
}

/// `a` and `b` hold the same values, whatever their order and repeats.
pub open spec fn same_members(a: Seq<u32>, b: Seq<u32>) -> bool {
    forall|x: u32| a.contains(x) <==> b.contains(x)
}

/// The first element of `s`, if any.
pub open spec fn first_of(s: Seq<u32>) -> Option<u32> {
    if s.len() > 0 {
        Some(s[0])
    } else {
        None
    }
}

/// The values of `v` in increasing order, each once.
pub fn sort_dedup(v: &Vec<u32>) -> (r: Vec<u32>)
    ensures
        strictly_increasing(r@),
        same_members(r@, v@),
{
    let mut r: Vec<u32> = Vec::new();
    let mut i: usize = 0;
    while i < v.len()
        invariant
            i <= v.len(),
            strictly_increasing(r@),
            forall|x: u32| r@.contains(x) <==> v@.take(i as int).contains(x),
        decreases v.len() - i,
    {
        let x = v[i];
        let mut p: usize = 0;
        while p < r.len() && r[p] < x
            invariant
                p <= r.len(),
                forall|k: int| 0 <= k < p ==> r@[k] < x,
            decreases r.len() - p,
        {
            p = p + 1;
        }
        let ghost old_r = r@;
        let ghost vt = v@.take(i + 1);
        let ghost vp = v@.take(i as int);
        assert(vt =~= vp.push(x));
        if p < r.len() && r[p] == x {
            assert forall|y: u32| r@.contains(y) <==> vt.contains(y) by {
                if y == x {
                    assert(r@[p as int] == x);
                }
                if vt.contains(y) && y != x {
                    let k = choose|k: int| 0 <= k < i + 1 && vt[k] == y;
                    assert(vp[k] == y);
                }
            }
        } else {
            r.insert(p, x);
            proof {
                old_r.insert_ensures(p as int, x);
                assert forall|a: int, b: int| 0 <= a < b < r@.len() implies r@[a] < r@[b] by {
                    if b < p {
                    } else if b == p {
                    } else if a < p {
                        assert(r@[b] == old_r[b - 1]);
                        assert(old_r[p as int] >= x);
                        if b - 1 > p {
                            assert(old_r[p as int] < old_r[b - 1]);
                        }
                    } else if a == p {
                        assert(r@[b] == old_r[b - 1]);
                        assert(old_r[p as int] >= x);
                        if b - 1 > p {
                            assert(old_r[p as int] < old_r[b - 1]);
                        }
                    } else {
                        assert(r@[a] == old_r[a - 1]);
                        assert(r@[b] == old_r[b - 1]);
                    }
                }
                assert forall|y: u32| r@.contains(y) <==> vt.contains(y) by {
                    if r@.contains(y) {
                        let k = choose|k: int| 0 <= k < r@.len() && r@[k] == y;
                        if k == p {
                            assert(vt[i as int] == x);
                        } else {
                            if k < p {
                                assert(old_r[k] == y);
                            } else {
                                assert(old_r[k - 1] == y);
                            }
                            assert(old_r.contains(y));
                            assert(vp.contains(y));
                            let j = choose|j: int| 0 <= j < vp.len() && vp[j] == y;
                            assert(vt[j] == y);
                        }
                    }
                    if vt.contains(y) {
                        let k = choose|k: int| 0 <= k < i + 1 && vt[k] == y;
                        if k < i {
                            assert(vp[k] == y);
                            assert(old_r.contains(y));
                            let m = choose|m: int| 0 <= m < old_r.len() && old_r[m] == y;
                            if m < p {
                                assert(r@[m] == y);
                            } else {
                                assert(r@[m + 1] == y);
                            }
                        } else {
                            assert(r@[p as int] == x);
                        }
                    }
                }
            }
        }
        i = i + 1;
    }
    assert(v@.take(v.len() as int) =~= v@);
    r
}

} // verus!

verus! {

/// A list of pids and the same pids sorted without repeats agree on the
/// first of them: there is none exactly when the sorted list is empty, and
/// otherwise the first is in it.
pub proof fn law_first_among_all(found: Seq<u32>, all: Seq<u32>)
    requires
        same_members(all, found),
    ensures
        first_of(found) is None <==> all.len() == 0,
        found.len() == 0 <==> all.len() == 0,
        first_of(found) matches Some(p) ==> all.contains(p),
{
    if found.len() > 0 {
        assert(found.contains(found[0]));
        assert(all.contains(found[0]));
    }
    if all.len() > 0 {
        assert(all.contains(all[0]));
        assert(found.contains(all[0]));
    }
}

} // verus!
