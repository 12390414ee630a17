use vstd::prelude::*;

use crate::types::{name_ok, SLASH};
use crate::varint::push_bytes;

verus! {

/// Index of the last separator byte in `p`, if any.
pub open spec fn rfind_slash_spec(p: Seq<u8>) -> Option<int>
    decreases p.len(),
{
    if p.len() == 0 {
        Option::None
    } else if p.last() == SLASH {
        Option::Some(p.len() - 1)
    } else {
        rfind_slash_spec(p.drop_last())
    }
}

pub proof fn lemma_rfind(p: Seq<u8>)
    ensures
        match rfind_slash_spec(p) {
            Option::Some(j) => 0 <= j < p.len() && p[j] == SLASH && (forall|k: int|
                j < k < p.len() ==> p[k] != SLASH),
            Option::None => forall|k: int| 0 <= k < p.len() ==> p[k] != SLASH,
        },
    decreases p.len(),
{
    if p.len() == 0 {
    } else if p.last() == SLASH {
    } else {
        lemma_rfind(p.drop_last());
        assert(forall|k: int| 0 <= k < p.len() - 1 ==> p[k] == p.drop_last()[k]);
    }
}

pub proof fn lemma_rfind_concat(base: Seq<u8>, n: Seq<u8>)
    requires
        forall|i: int| 0 <= i < n.len() ==> n[i] != SLASH,
    ensures
        rfind_slash_spec(base + seq![SLASH] + n) == Option::Some(base.len() as int),
    decreases n.len(),
{
    let w = base + seq![SLASH] + n;
    if n.len() == 0 {
        assert(w.last() == SLASH);
        assert(w.len() - 1 == base.len());
    } else {
        assert(w.last() == n[n.len() - 1]);
        lemma_rfind_concat(base, n.drop_last());
        assert(w.drop_last() =~= base + seq![SLASH] + n.drop_last());
    }
}

pub proof fn lemma_rfind_noslash(n: Seq<u8>)
    requires
        forall|i: int| 0 <= i < n.len() ==> n[i] != SLASH,
    ensures
        rfind_slash_spec(n) is None,
    decreases n.len(),
{
    if n.len() > 0 {
        assert(n[n.len() - 1] != SLASH);
        assert(forall|i: int| 0 <= i < n.len() - 1 ==> n.drop_last()[i] == n[i]);
        lemma_rfind_noslash(n.drop_last());
    }
}

/// The path's segments: what stands between the separators, the split taken
/// at the last separator first.
pub open spec fn segs_of(p: Seq<u8>) -> Seq<Seq<u8>>
    decreases p.len(),
{
    if p.len() == 0 {
        Seq::empty()
    } else {
        match rfind_slash_spec(p) {
            Option::None => seq![p],
            Option::Some(j) => if 0 <= j < p.len() {
                segs_of(p.take(j)) + seq![p.skip(j + 1)]
            } else {
                seq![p]
            },
        }
    }
}

/// Segments joined back into one path, one separator between two segments.
pub open spec fn join_segs(s: Seq<Seq<u8>>) -> Seq<u8>
    decreases s.len(),
{
    if s.len() == 0 {
        Seq::empty()
    } else if s.len() == 1 {
        s[0]
    } else {
        join_segs(s.drop_last()) + seq![SLASH] + s.last()
    }
}

/// Every segment could have been a child name.
pub open spec fn seg_wf(s: Seq<Seq<u8>>) -> bool {
    forall|i: int| 0 <= i < s.len() ==> name_ok(s[i])
}

/// A well-formed path: its segments are usable names and joining them gives
/// the path back, byte for byte.
pub open spec fn path_wf(p: Seq<u8>) -> bool {
    seg_wf(segs_of(p)) && join_segs(segs_of(p)) == p
}

pub proof fn lemma_join_nonempty(s: Seq<Seq<u8>>)
    requires
        seg_wf(s),
        s.len() > 0,
    ensures
        join_segs(s).len() > 0,
{
    if s.len() == 1 {
        assert(name_ok(s[0]));
    }
}

/// Truncating a well-formed path of two or more segments at its last
/// separator removes exactly the last segment.
pub proof fn lemma_truncate(p: Seq<u8>, j: int)
    requires
        path_wf(p),
        segs_of(p).len() >= 2,
        rfind_slash_spec(p) == Option::Some(j),
    ensures
        0 <= j < p.len(),
        segs_of(p.take(j)) == segs_of(p).drop_last(),
        segs_of(p).last() == p.skip(j + 1),
        path_wf(p.take(j)),
{
    lemma_rfind(p);
    let s = segs_of(p);
    let s0 = segs_of(p.take(j));
    assert(s == s0 + seq![p.skip(j + 1)]);
    assert(s0 =~= s.drop_last());
    let left = join_segs(s.drop_last());
    assert(join_segs(s) == left + seq![SLASH] + s.last());
    assert(p == left + seq![SLASH] + p.skip(j + 1));
    assert(left.len() == j);
    assert forall|k: int| 0 <= k < j implies left[k] == p[k] by {
        assert(p[k] == (left + seq![SLASH] + p.skip(j + 1))[k]);
    }
    assert(left =~= p.take(j));
    assert forall|i: int| 0 <= i < s0.len() implies name_ok(s0[i]) by {
        assert(s0[i] == s[i]);
    }
}

/// Appending a separator and a usable name to a nonempty well-formed path
/// appends exactly one segment.
pub proof fn lemma_append(p: Seq<u8>, n: Seq<u8>)
    requires
        path_wf(p),
        p.len() > 0,
        name_ok(n),
    ensures
        segs_of(p + seq![SLASH] + n) == segs_of(p) + seq![n],
        path_wf(p + seq![SLASH] + n),
{
    let p2 = p + seq![SLASH] + n;
    lemma_rfind_concat(p, n);
    assert(p2.take(p.len() as int) =~= p);
    assert(p2.skip(p.len() as int + 1) =~= n);
    assert(segs_of(p2) == segs_of(p) + seq![n]);
    if segs_of(p).len() == 0 {
        assert(join_segs(segs_of(p)).len() == 0);
        assert(false);
    }
    let s2 = segs_of(p) + seq![n];
    assert(s2.drop_last() =~= segs_of(p));
    assert(s2.last() == n);
    assert(join_segs(s2) == join_segs(segs_of(p)) + seq![SLASH] + n);
    assert(join_segs(s2) == p2);
    assert forall|i: int| 0 <= i < s2.len() implies name_ok(s2[i]) by {
        if i < s2.len() - 1 {
            assert(s2[i] == segs_of(p)[i]);
        }
    }
}

/// A usable name on its own is a one-segment path.
pub proof fn lemma_single(n: Seq<u8>)
    requires
        name_ok(n),
    ensures
        segs_of(n) == seq![n],
        path_wf(n),
{
    lemma_rfind_noslash(n);
    assert(segs_of(n) == seq![n]);
    assert(join_segs(seq![n]) == n);
}

/// Finds the last separator byte of `p`.
pub fn rfind_slash(p: &Vec<u8>) -> (r: Option<usize>)
    ensures
        match r {
            Option::Some(j) => rfind_slash_spec(p@) == Option::Some(j as int),
            Option::None => rfind_slash_spec(p@) is None,
        },
{
    let mut i: usize = p.len();
    proof {
        assert(p@.take(i as int) =~= p@);
    }
    while i > 0
        invariant
            i <= p@.len(),
            rfind_slash_spec(p@) == rfind_slash_spec(p@.take(i as int)),
        decreases i,
    {
        if p[i - 1] == SLASH {
            proof {
                assert(p@.take(i as int).last() == p@[i - 1]);
            }
            return Some(i - 1);
        }
        proof {
            assert(p@.take(i as int).last() == p@[i - 1]);
            assert(p@.take(i as int).drop_last() =~= p@.take(i - 1));
        }
        i = i - 1;
    }
    proof {
        assert(p@.take(0).len() == 0);
    }
    None
}

/// Compares the suffix of `p` that starts at `start` with `name`.
pub fn suffix_eq(p: &Vec<u8>, start: usize, name: &Vec<u8>) -> (r: bool)
    requires
        start <= p@.len(),
    ensures
        r <==> p@.skip(start as int) == name@,
{
    let ghost suf = p@.skip(start as int);
    if p.len() - start != name.len() {
        proof {
            assert(suf.len() != name@.len());
        }
        return false;
    }
    let mut k: usize = 0;
    proof {
        assert(p@.len() == p.len());
    }
    while k < name.len()
        invariant
            suf == p@.skip(start as int),
            suf.len() == name@.len(),
            start + name@.len() <= p@.len(),
            p@.len() <= usize::MAX,
            k <= name@.len(),
            forall|t: int| 0 <= t < k ==> suf[t] == name@[t],
        decreases name@.len() - k,
    {
        proof {
            assert(suf[k as int] == p@[start + k]);
        }
        if p[start + k] != name[k] {
            return false;
        }
        k = k + 1;
    }
    proof {
        assert(suf =~= name@);
    }
    true
}

/// Brings the tracked path and depth to `depth`, appending `name` as the last
/// segment when one is given: segments above `depth - 1` are dropped, then the
/// name is appended. With no name (only the root has none) the path resets to
/// empty. The tracked depth always equals the number of segments.
pub fn update_full_path(full_path: &mut Vec<u8>, old_depth: &mut usize, name: Option<&Vec<u8>>, depth: usize)
    requires
        path_wf(old(full_path)@),
        *old(old_depth) == segs_of(old(full_path)@).len(),
        match name {
            Option::Some(n) => name_ok(n@) && 1 <= depth && (2 <= depth ==> depth <= *old(old_depth)
                + 1),
            Option::None => depth == 0,
        },
    ensures
        path_wf(final(full_path)@),
        *final(old_depth) == depth,
        segs_of(final(full_path)@) == (match name {
            Option::Some(n) => segs_of(old(full_path)@).take(depth - 1) + seq![n@],
            Option::None => Seq::<Seq<u8>>::empty(),
        }),
{
    let ghost orig: Seq<u8> = full_path@;
    if depth < 2 {
        full_path.clear();
        *old_depth = 0;
    } else {
        while *old_depth >= depth
            invariant
                orig == old(full_path)@,
                *old(old_depth) == segs_of(orig).len(),
                2 <= depth,
                name is Some,
                match name {
                    Option::Some(n) => name_ok(n@),
                    Option::None => false,
                },
                path_wf(full_path@),
                *old_depth == segs_of(full_path@).len(),
                segs_of(full_path@) == segs_of(orig).take(*old_depth as int),
                *old_depth <= segs_of(orig).len(),
                depth - 1 <= *old_depth,
            decreases *old_depth,
        {
            let ghost cur = full_path@;
            proof {
                if rfind_slash_spec(cur) is None {
                    assert(segs_of(cur).len() <= 1);
                    assert(false);
                }
                if cur.len() == 0 {
                    assert(segs_of(cur).len() == 0);
                    assert(false);
                }
            }
            let j = match rfind_slash(full_path) {
                Some(j) => j,
                None => {
                    proof {
                        assert(false);
                    }
                    0
                },
            };
            proof {
                lemma_truncate(cur, j as int);
                assert(cur.len() == full_path.len());
            }
            if *old_depth == depth {
                let n = name.unwrap();
                if suffix_eq(full_path, j + 1, n) {
                    proof {
                        assert(segs_of(cur).last() == n@);
                        assert(segs_of(cur).len() == depth);
                        assert(segs_of(cur) == segs_of(orig).take(depth as int));
                        assert(depth <= segs_of(orig).len());
                        assert forall|i: int| 0 <= i < depth implies segs_of(orig).take(
                            depth as int,
                        )[i] == (segs_of(orig).take(depth - 1) + seq![n@])[i] by {
                            if i == depth - 1 {
                                assert(segs_of(cur)[i] == segs_of(cur).last());
                            }
                        }
                        assert(segs_of(orig).take(depth as int) =~= segs_of(orig).take(depth - 1)
                            + seq![n@]);
                        assert(segs_of(full_path@) == segs_of(orig).take(depth - 1) + seq![n@]);
                    }
                    return ;
                }
            }
            full_path.truncate(j);
            proof {
                assert(full_path@ =~= cur.take(j as int));
                assert(segs_of(orig).take(*old_depth as int).drop_last() =~= segs_of(orig).take(
                    *old_depth - 1,
                ));
            }
            *old_depth = *old_depth - 1;
        }
    }
    if let Some(n) = name {
        let ghost pre: Seq<u8> = full_path@;
        if full_path.len() > 0 {
            proof {
                if segs_of(pre).len() == 0 {
                    assert(join_segs(segs_of(pre)).len() == 0);
                    assert(false);
                }
                lemma_append(pre, n@);
            }
            full_path.push(SLASH);
            push_bytes(full_path, n);
            proof {
                assert(full_path@ =~= pre + seq![SLASH] + n@);
            }
        } else {
            push_bytes(full_path, n);
            proof {
                if segs_of(pre).len() > 0 {
                    lemma_join_nonempty(segs_of(pre));
                    assert(false);
                }
                assert(full_path@ =~= n@);
                lemma_single(n@);
            }
        }
        *old_depth = *old_depth + 1;
        proof {
            if depth < 2 {
                assert(segs_of(orig).take(depth - 1) =~= Seq::<Seq<u8>>::empty());
                assert(segs_of(full_path@) =~= segs_of(orig).take(depth - 1) + seq![n@]);
            } else {
                assert(segs_of(full_path@) =~= segs_of(orig).take(depth - 1) + seq![n@]);
            }
        }
    }
}

} // verus!
