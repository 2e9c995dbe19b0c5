//! Association rows: vectors of `(key, value)` pairs with strictly
//! ascending `u32` keys. Both weighted graphs — file→author change totals
//! and file→file co-change counts — store one such row per file id.
use vstd::prelude::*;

verus! {

/// Value stored under key `k`: the first matching entry, if any.
pub open spec fn assoc_get(s: Seq<(u32, u32)>, k: u32) -> Option<u32>
    decreases s.len(),
{
    if s.len() == 0 {
        None
    } else if s[0].0 == k {
        Some(s[0].1)
    } else {
        assoc_get(s.skip(1), k)
    }
}

/// Value under `k`, defaulting to 0 when absent.
pub open spec fn assoc_get0(s: Seq<(u32, u32)>, k: u32) -> u32 {
    match assoc_get(s, k) {
        Some(v) => v,
        None => 0,
    }
}

/// Keys strictly ascending: sorted, duplicate-free.
pub open spec fn assoc_wf(s: Seq<(u32, u32)>) -> bool {
    forall|i: int, j: int| 0 <= i < j < s.len() ==> (#[trigger] s[i]).0 < (#[trigger] s[j]).0
}

/// `u32` addition saturating at the maximum.
pub open spec fn sat_add(a: u32, b: u32) -> u32 {
    if a + b > u32::MAX {
        u32::MAX
    } else {
        (a + b) as u32
    }
}

/// On a well-formed row, `assoc_get` answers by the unique entry with the
/// asked key, and `None` means no entry has it.
pub proof fn lemma_assoc_get_wf(s: Seq<(u32, u32)>, k: u32)
    requires
        assoc_wf(s),
    ensures
        match assoc_get(s, k) {
            Some(v) => exists|i: int| 0 <= i < s.len() && s[i] == (k, v),
            None => forall|i: int| 0 <= i < s.len() ==> (#[trigger] s[i]).0 != k,
        },
        forall|i: int| 0 <= i < s.len() && (#[trigger] s[i]).0 == k ==> assoc_get(s, k) == Some(
            s[i].1,
        ),
    decreases s.len(),
{
    if s.len() == 0 {
    } else if s[0].0 == k {
        assert(s[0] == (k, s[0].1));
        assert forall|i: int|
            0 <= i < s.len() && (#[trigger] s[i]).0 == k implies assoc_get(s, k) == Some(
            s[i].1,
        ) by {
            if i > 0 {
                assert(s[0].0 < s[i].0);
            }
        }
    } else {
        let t = s.skip(1);
        assert(assoc_wf(t)) by {
            assert forall|i: int, j: int|
                0 <= i < j < t.len() implies (#[trigger] t[i]).0 < (#[trigger] t[j]).0 by {
                assert(t[i] == s[i + 1]);
                assert(t[j] == s[j + 1]);
            }
        }
        lemma_assoc_get_wf(t, k);
        match assoc_get(s, k) {
            Some(v) => {
                let i = choose|i: int| 0 <= i < t.len() && t[i] == (k, v);
                assert(s[i + 1] == (k, v));
            },
            None => {
                assert forall|i: int| 0 <= i < s.len() implies (#[trigger] s[i]).0 != k by {
                    if i > 0 {
                        assert(t[i - 1] == s[i]);
                    }
                }
            },
        }
        assert forall|i: int|
            0 <= i < s.len() && (#[trigger] s[i]).0 == k implies assoc_get(s, k) == Some(
            s[i].1,
        ) by {
            if i > 0 {
                assert(t[i - 1] == s[i]);
            }
        }
    }
}

/// A key that no entry has is not stored.
pub proof fn lemma_assoc_get_absent(s: Seq<(u32, u32)>, k: u32)
    requires
        assoc_wf(s),
        forall|i: int| 0 <= i < s.len() ==> (#[trigger] s[i]).0 != k,
    ensures
        assoc_get(s, k) is None,
{
    lemma_assoc_get_wf(s, k);
    if assoc_get(s, k) is Some {
        let v = assoc_get(s, k)->Some_0;
        let i = choose|i: int| 0 <= i < s.len() && s[i] == (k, v);
        assert(s[i].0 == k);
        assert(false);
    }
}

/// First position whose key is at least `k`, or the length of the row.
fn assoc_lower_bound(v: &Vec<(u32, u32)>, k: u32) -> (r: usize)
    ensures
        r <= v@.len(),
        forall|j: int| 0 <= j < r ==> (#[trigger] v@[j]).0 < k,
        r < v@.len() ==> v@[r as int].0 >= k,
{
    let mut i: usize = 0;
    loop
        invariant
            i <= v.len(),
            forall|j: int| 0 <= j < i ==> (#[trigger] v@[j]).0 < k,
        decreases v.len() - i,
    {
        if i >= v.len() {
            break;
        }
        if v[i].0 >= k {
            return i;
        }
        i = i + 1;
    }
    i
}

/// Stores `val` under `k`, overwriting an existing entry.
pub fn assoc_set(v: &mut Vec<(u32, u32)>, k: u32, val: u32)
    requires
        assoc_wf(old(v)@),
    ensures
        assoc_wf(final(v)@),
        forall|k2: u32|
            #[trigger] assoc_get(final(v)@, k2) == (if k2 == k {
                Some(val)
            } else {
                assoc_get(old(v)@, k2)
            }),
        final(v)@.len() <= old(v)@.len() + 1,
        forall|j: int|
            0 <= j < final(v)@.len() ==> (#[trigger] final(v)@[j]).0 == k || exists|i: int|
                0 <= i < old(v)@.len() && old(v)@[i].0 == final(v)@[j].0,
{
    let i = assoc_lower_bound(v, k);
    let ghost ov = v@;
    if i < v.len() && v[i].0 == k {
        v.remove(i);
        v.insert(i, (k, val));
        proof {
            let nv = v@;
            assert(nv =~= ov.update(i as int, (k, val)));
            assert(forall|j: int|
                0 <= j < nv.len() ==> (#[trigger] nv[j]).0 == ov[j].0);
            assert(assoc_wf(nv));
            lemma_assoc_set_get(ov, nv, i as int, k, val);
        }
    } else {
        v.insert(i, (k, val));
        proof {
            let nv = v@;
            assert forall|j: int| i <= j < ov.len() implies (#[trigger] ov[j]).0 > k by {
                if j > i {
                    assert(ov[i as int].0 < ov[j].0);
                }
            }
            assert(assoc_wf(nv)) by {
                assert forall|a: int, b: int|
                    0 <= a < b < nv.len() implies (#[trigger] nv[a]).0 < (#[trigger] nv[b]).0 by {
                    let ga = if a < i { ov[a] } else if a == i { (k, val) } else { ov[a - 1] };
                    let gb = if b < i { ov[b] } else if b == i { (k, val) } else { ov[b - 1] };
                    assert(nv[a] == ga);
                    assert(nv[b] == gb);
                }
            }
            lemma_assoc_insert_get(ov, nv, i as int, k, val);
        }
    }
}

/// After overwriting position `i` (whose key was `k`), lookups change only
/// at `k`.
proof fn lemma_assoc_set_get(ov: Seq<(u32, u32)>, nv: Seq<(u32, u32)>, i: int, k: u32, val: u32)
    requires
        assoc_wf(ov),
        assoc_wf(nv),
        0 <= i < ov.len(),
        ov[i].0 == k,
        nv == ov.update(i, (k, val)),
    ensures
        forall|k2: u32|
            #[trigger] assoc_get(nv, k2) == (if k2 == k {
                Some(val)
            } else {
                assoc_get(ov, k2)
            }),
{
    assert forall|k2: u32|
        #[trigger] assoc_get(nv, k2) == (if k2 == k {
            Some(val)
        } else {
            assoc_get(ov, k2)
        }) by {
        lemma_assoc_get_wf(ov, k2);
        lemma_assoc_get_wf(nv, k2);
        if k2 == k {
            assert(nv[i] == (k, val));
        } else {
            match assoc_get(ov, k2) {
                Some(v) => {
                    let j = choose|j: int| 0 <= j < ov.len() && ov[j] == (k2, v);
                    assert(j != i);
                    assert(nv[j] == (k2, v));
                },
                None => {
                    assert forall|j: int| 0 <= j < nv.len() implies (#[trigger] nv[j]).0 != k2 by {
                        if j != i {
                            assert(nv[j] == ov[j]);
                        }
                    }
                    lemma_assoc_get_absent(nv, k2);
                },
            }
        }
    }
}

/// After inserting `(k, val)` at position `i`, lookups change only at `k`.
proof fn lemma_assoc_insert_get(ov: Seq<(u32, u32)>, nv: Seq<(u32, u32)>, i: int, k: u32, val: u32)
    requires
        assoc_wf(ov),
        assoc_wf(nv),
        0 <= i <= ov.len(),
        nv == ov.insert(i, (k, val)),
        forall|j: int| 0 <= j < ov.len() ==> (#[trigger] ov[j]).0 != k,
    ensures
        forall|k2: u32|
            #[trigger] assoc_get(nv, k2) == (if k2 == k {
                Some(val)
            } else {
                assoc_get(ov, k2)
            }),
{
    assert forall|k2: u32|
        #[trigger] assoc_get(nv, k2) == (if k2 == k {
            Some(val)
        } else {
            assoc_get(ov, k2)
        }) by {
        lemma_assoc_get_wf(ov, k2);
        lemma_assoc_get_wf(nv, k2);
        if k2 == k {
            assert(nv[i] == (k, val));
        } else {
            match assoc_get(ov, k2) {
                Some(v) => {
                    let j = choose|j: int| 0 <= j < ov.len() && ov[j] == (k2, v);
                    if j < i {
                        assert(nv[j] == (k2, v));
                    } else {
                        assert(nv[j + 1] == (k2, v));
                    }
                },
                None => {
                    assert forall|j: int| 0 <= j < nv.len() implies (#[trigger] nv[j]).0 != k2 by {
                        if j < i {
                            assert(nv[j] == ov[j]);
                        } else if j > i {
                            assert(nv[j] == ov[j - 1]);
                        }
                    }
                    lemma_assoc_get_absent(nv, k2);
                },
            }
        }
    }
}

/// Adds `delta` to the value under `k`, saturating; an absent key starts
/// from 0.
pub fn assoc_bump(v: &mut Vec<(u32, u32)>, k: u32, delta: u32)
    requires
        assoc_wf(old(v)@),
    ensures
        assoc_wf(final(v)@),
        forall|k2: u32|
            #[trigger] assoc_get(final(v)@, k2) == (if k2 == k {
                Some(sat_add(assoc_get0(old(v)@, k2), delta))
            } else {
                assoc_get(old(v)@, k2)
            }),
        final(v)@.len() <= old(v)@.len() + 1,
        forall|j: int|
            0 <= j < final(v)@.len() ==> (#[trigger] final(v)@[j]).0 == k || exists|i: int|
                0 <= i < old(v)@.len() && old(v)@[i].0 == final(v)@[j].0,
{
    let i = assoc_lower_bound(v, k);
    let mut cur: u32 = 0;
    if i < v.len() && v[i].0 == k {
        cur = v[i].1;
        proof {
            lemma_assoc_get_wf(v@, k);
        }
    } else {
        proof {
            assert forall|j: int| 0 <= j < v@.len() implies (#[trigger] v@[j]).0 != k by {
                if j > i {
                    assert(v@[i as int].0 < v@[j].0);
                }
            }
            lemma_assoc_get_absent(v@, k);
        }
    }
    proof {
        assert(cur == assoc_get0(v@, k));
    }
    let nval = if cur > u32::MAX - delta {
        u32::MAX
    } else {
        cur + delta
    };
    assoc_set(v, k, nval);
}

} // verus!
