//! The order a benchmark visits listed objects in: files only, smallest
//! first, objects of one size in the order they were listed.
use vstd::prelude::*;

use crate::walker::is_dir_marker;

verus! {

/// The views of listed entries (a path and its content length).
pub open spec fn entry_views(v: Seq<(String, u64)>) -> Seq<(Seq<char>, u64)> {
    v.map_values(|e: (String, u64)| (e.0@, e.1))
}

/// Sizes never decrease along `s`.
pub open spec fn sizes_ascending(s: Seq<(Seq<char>, u64)>) -> bool {
    forall|i: int, j: int| 0 <= i < j < s.len() ==> s[i].1 <= s[j].1
}

/// The entries of `size` bytes.
pub open spec fn of_size(size: u64) -> spec_fn((Seq<char>, u64)) -> bool {
    |e: (Seq<char>, u64)| e.1 == size
}

/// The file entries (not directory markers) of `size` bytes.
pub open spec fn file_of_size(size: u64) -> spec_fn((Seq<char>, u64)) -> bool {
    |e: (Seq<char>, u64)| !is_dir_marker(e.0) && e.1 == size
}

/// The entries a benchmark plans for of each size are the listed entries of
/// that size that do not end in `/`: every object is kept, an empty one too,
/// and only directory markers are left out.
pub proof fn law_every_file_of_every_size_is_planned(size: u64, e: (Seq<char>, u64))
    ensures
        file_of_size(size)(e) == (!(e.0.len() > 0 && e.0.last() == '/') && e.1 == size),
        of_size(size)(e) == (e.1 == size),
{
}

/// Inserting `x` before every entry larger than it adds `x` to the entries
/// of its size, after those already there, and leaves the other sizes.
proof fn lemma_insert_by_size(s: Seq<(Seq<char>, u64)>, p: int, x: (Seq<char>, u64), size: u64)
    requires
        0 <= p <= s.len(),
        forall|k: int| p <= k < s.len() ==> (#[trigger] s[k]).1 > x.1,
    ensures
        s.insert(p, x).filter(of_size(size)) == if x.1 == size {
            s.filter(of_size(size)).push(x)
        } else {
            s.filter(of_size(size))
        },
{
    let pred = of_size(size);
    let a = s.take(p);
    let b = s.skip(p);
    let one = seq![x];
    assert(s =~= a + b);
    assert(s.insert(p, x) =~= (a + one) + b);
    Seq::filter_distributes_over_add(a + one, b, pred);
    Seq::filter_distributes_over_add(a, one, pred);
    Seq::filter_distributes_over_add(a, b, pred);
    assert(one =~= Seq::<(Seq<char>, u64)>::empty().push(x));
    Seq::<(Seq<char>, u64)>::empty().lemma_filter_push(x, pred);
    Seq::<(Seq<char>, u64)>::empty().lemma_filter_len(pred);
    if x.1 == size {
        assert forall|k: int| 0 <= k < b.len() implies !pred(#[trigger] b[k]) by {
            assert(b[k] == s[p + k]);
        }
        b.lemma_all_neg_filter_empty(pred);
        assert(b.filter(pred) =~= Seq::<(Seq<char>, u64)>::empty());
        assert(s.filter(pred) =~= a.filter(pred));
        assert(s.insert(p, x).filter(pred) =~= a.filter(pred).push(x));
    } else {
        assert(one.filter(pred) =~= Seq::<(Seq<char>, u64)>::empty());
        assert(a.filter(pred) + one.filter(pred) =~= a.filter(pred));
    }
}

/// The files of a listing in the order a benchmark visits them: directory
/// markers left out, the rest by ascending size, entries of one size in
/// listing order (a stable sort by size).
pub fn files_by_size(listed: &Vec<(String, u64)>) -> (files: Vec<(String, u64)>)
    ensures
        sizes_ascending(entry_views(files@)),
        forall|i: int, j: int| 0 <= i < j < files@.len() ==> files@[i].1 <= files@[j].1,
        forall|size: u64|
            #[trigger] entry_views(files@).filter(of_size(size)) == entry_views(listed@).filter(
                file_of_size(size),
            ),
        entry_views(files@).to_multiset() == entry_views(listed@).filter(
            |e: (Seq<char>, u64)| !(e.0.len() > 0 && e.0.last() == '/'),
        ).to_multiset(),
{
    let ghost is_file = |e: (Seq<char>, u64)| !(e.0.len() > 0 && e.0.last() == '/');
    let mut files: Vec<(String, u64)> = Vec::new();
    let mut i: usize = 0;
    proof {
        assert forall|size: u64|
            #[trigger] entry_views(files@).filter(of_size(size)) == entry_views(
                listed@.take(0),
            ).filter(file_of_size(size)) by {
            assert(entry_views(files@) =~= Seq::<(Seq<char>, u64)>::empty());
            assert(entry_views(listed@.take(0)) =~= Seq::<(Seq<char>, u64)>::empty());
            Seq::<(Seq<char>, u64)>::empty().lemma_filter_len(of_size(size));
            Seq::<(Seq<char>, u64)>::empty().lemma_filter_len(file_of_size(size));
        }
        assert(entry_views(files@) =~= Seq::<(Seq<char>, u64)>::empty());
        assert(entry_views(listed@.take(0)) =~= Seq::<(Seq<char>, u64)>::empty());
        Seq::<(Seq<char>, u64)>::empty().lemma_filter_len(is_file);
        assert(entry_views(listed@.take(0)).filter(is_file) =~= Seq::<(Seq<char>, u64)>::empty());
    }
    while i < listed.len()
        invariant
            0 <= i <= listed@.len(),
            sizes_ascending(entry_views(files@)),
            forall|size: u64|
                #[trigger] entry_views(files@).filter(of_size(size)) == entry_views(
                    listed@.take(i as int),
                ).filter(file_of_size(size)),
            is_file == (|e: (Seq<char>, u64)| !(e.0.len() > 0 && e.0.last() == '/')),
            entry_views(files@).to_multiset() == entry_views(listed@.take(i as int)).filter(
                is_file,
            ).to_multiset(),
        decreases listed@.len() - i,
    {
        let path = listed[i].0.as_str();
        let size = listed[i].1;
        let ghost x = (path@, size);
        let ghost before = entry_views(files@);
        let ghost prefix = entry_views(listed@.take(i as int));
        proof {
            assert(entry_views(listed@.take(i + 1)) =~= prefix.push(x));
            prefix.lemma_filter_push(x, is_file);
        }
        if !crate::walker::ends_with_slash(path) {
            let mut lo: usize = 0;
            let mut hi: usize = files.len();
            while lo < hi
                invariant
                    0 <= lo <= hi <= files@.len(),
                    before == entry_views(files@),
                    sizes_ascending(before),
                    forall|k: int| 0 <= k < lo ==> (#[trigger] before[k]).1 <= size,
                    forall|k: int| hi <= k < files@.len() ==> (#[trigger] before[k]).1 > size,
                decreases hi - lo,
            {
                let mid = lo + (hi - lo) / 2;
                if files[mid].1 <= size {
                    proof {
                        assert(before[mid as int].1 == files@[mid as int].1);
                        assert forall|k: int| 0 <= k <= mid implies (#[trigger] before[k]).1 <= size by {
                            if k < mid {
                                assert(before[k].1 <= before[mid as int].1);
                            }
                        }
                    }
                    lo = mid + 1;
                } else {
                    proof {
                        assert(before[mid as int].1 == files@[mid as int].1);
                        assert forall|k: int| mid <= k < files@.len() implies (#[trigger] before[k]).1 > size by {
                            if k > mid {
                                assert(before[mid as int].1 <= before[k].1);
                            }
                        }
                    }
                    hi = mid;
                }
            }
            let p = lo;
            files.insert(p, (listed[i].0.clone(), size));
            proof {
                assert(entry_views(files@) =~= before.insert(p as int, x));
                vstd::seq_lib::to_multiset_insert(before, p as int, x);
                vstd::seq_lib::to_multiset_build(prefix.filter(is_file), x);
                let after = entry_views(files@);
                assert forall|a: int, b: int| 0 <= a < b < after.len() implies after[a].1 <= after[b].1 by {
                    let a0 = if a < p { a } else { a - 1 };
                    let b0 = if b < p { b } else { b - 1 };
                    if a != p && b != p {
                        assert(after[a] == before[a0] && after[b] == before[b0]);
                    } else if a == p {
                        assert(after[b] == before[b0]);
                    } else {
                        assert(after[a] == before[a0]);
                    }
                }
                assert forall|sz: u64|
                    #[trigger] entry_views(files@).filter(of_size(sz)) == entry_views(
                        listed@.take(i + 1),
                    ).filter(file_of_size(sz)) by {
                    lemma_insert_by_size(before, p as int, x, sz);
                    prefix.lemma_filter_push(x, file_of_size(sz));
                }
            }
        } else {
            proof {
                assert forall|sz: u64|
                    #[trigger] entry_views(files@).filter(of_size(sz)) == entry_views(
                        listed@.take(i + 1),
                    ).filter(file_of_size(sz)) by {
                    prefix.lemma_filter_push(x, file_of_size(sz));
                }
            }
        }
        i = i + 1;
    }
    proof {
        assert(listed@.take(i as int) =~= listed@);
        let v = entry_views(files@);
        assert forall|a: int, b: int| 0 <= a < b < files@.len() implies files@[a].1 <= files@[b].1 by {
            assert(v[a].1 == files@[a].1 && v[b].1 == files@[b].1);
        }
    }
    files
}

} // verus!
