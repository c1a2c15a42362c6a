//! Nearest-hit selection over the primitives of a scene: a linear scan of
//! the per-primitive intersection results that keeps the closest hit seen
//! so far. A new hit replaces the kept one only when it is strictly closer,
//! so at equal distance the first one found wins.
use vstd::prelude::*;

verus! {

/// Hit kept by the scan over `hits`, where `closer` says whether its first
/// argument is strictly closer than its second.
pub open spec fn spec_nearest<T, F: Fn(T, T) -> bool>(hits: Seq<Option<T>>, closer: F) -> Option<T>
    decreases hits.len(),
{
    if hits.len() == 0 {
        None
    } else {
        let best = spec_nearest(hits.drop_last(), closer);
        match hits.last() {
            None => best,
            Some(h) => match best {
                None => Some(h),
                Some(c) => if closer.ensures((h, c), true) {
                    Some(h)
                } else {
                    Some(c)
                },
            },
        }
    }
}

/// `closer` can be called on any pair and answers as a function of it.
pub open spec fn is_comparison<T, F: Fn(T, T) -> bool>(closer: F) -> bool {
    &&& forall|a: T, b: T| closer.requires((a, b))
    &&& forall|a: T, b: T, x: bool| #[trigger] closer.ensures((a, b), x) ==> x == closer.ensures((a, b), true)
}

/// `closer` is "strictly less" of an ordering by a key: nothing is closer
/// than itself, and when `b` is closer than `c` while `a` is not, `a` is
/// not closer than `b` either.
pub open spec fn is_strict_order<T, F: Fn(T, T) -> bool>(closer: F) -> bool {
    &&& forall|a: T| !closer.ensures((a, a), true)
    &&& forall|a: T, b: T, c: T|
        #![trigger closer.ensures((b, c), true), closer.ensures((a, b), true)]
        closer.ensures((b, c), true) && !closer.ensures((a, c), true) ==> !closer.ensures((a, b), true)
}

pub open spec fn is_hit<T>() -> spec_fn(Option<T>) -> bool {
    |o: Option<T>| o is Some
}

/// The closest of `hits`, scanning in order and keeping the current hit
/// unless a later one is strictly closer by `closer`.
pub fn nearest<T: Copy, F: Fn(T, T) -> bool>(hits: &Vec<Option<T>>, closer: &F) -> (r: Option<T>)
    requires
        is_comparison(*closer),
    ensures
        r == spec_nearest(hits@, *closer),
{
    let mut out: Option<T> = None;
    let mut i: usize = 0;
    while i < hits.len()
        invariant
            i <= hits.len(),
            is_comparison(*closer),
            out == spec_nearest(hits@.take(i as int), *closer),
        decreases hits.len() - i,
    {
        assert(hits@.take(i as int + 1).drop_last() =~= hits@.take(i as int));
        if let Some(hit) = hits[i] {
            match out {
                Some(cur) => {
                    if closer(hit, cur) {
                        out = Some(hit);
                    }
                },
                None => {
                    out = Some(hit);
                },
            }
        }
        i = i + 1;
    }
    assert(hits@.take(hits.len() as int) =~= hits@);
    out
}

/// Primitives that the ray misses do not matter: leaving them out, or
/// moving them anywhere in the list, leaves the chosen hit unchanged.
pub proof fn lemma_nearest_ignores_misses<T, F: Fn(T, T) -> bool>(hits: Seq<Option<T>>, closer: F)
    ensures
        spec_nearest(hits, closer) == spec_nearest(hits.filter(is_hit::<T>()), closer),
    decreases hits.len(),
{
    if hits.len() > 0 {
        let init = hits.drop_last();
        lemma_nearest_ignores_misses(init, closer);
        assert(init.push(hits.last()) =~= hits);
        init.lemma_filter_push(hits.last(), is_hit::<T>());
        let kept = init.filter(is_hit::<T>());
        if hits.last() is Some {
            assert(kept.push(hits.last()).drop_last() =~= kept);
        }
    }
}

/// The chosen hit is globally nearest: there is one exactly when some
/// primitive is hit, it is one of the hits, and no hit is strictly closer.
pub proof fn lemma_nearest_is_minimal<T, F: Fn(T, T) -> bool>(hits: Seq<Option<T>>, closer: F)
    requires
        is_strict_order(closer),
    ensures
        spec_nearest(hits, closer) is None <==> forall|i: int| 0 <= i < hits.len() ==> hits[i] is None,
        spec_nearest(hits, closer) matches Some(r) ==> {
            &&& hits.contains(Some(r))
            &&& forall|i: int|
                0 <= i < hits.len() ==> (#[trigger] hits[i] matches Some(h) ==> !closer.ensures(
                    (h, r),
                    true,
                ))
        },
    decreases hits.len(),
{
    if hits.len() > 0 {
        let init = hits.drop_last();
        let n = hits.len() - 1;
        lemma_nearest_is_minimal(init, closer);
        let best = spec_nearest(init, closer);
        if best is None && hits.last() is None {
            assert forall|i: int| 0 <= i < hits.len() implies hits[i] is None by {
                if i < init.len() {
                    assert(init[i] is None);
                }
            }
        }
        match hits.last() {
            None => {
                if let Some(c) = best {
                    let x = choose|i: int| 0 <= i < init.len() && init[i] == Some(c);
                    assert(hits[x] == Some(c));
                    assert forall|i: int| 0 <= i < hits.len() implies (#[trigger] hits[i] matches Some(g)
                        ==> !closer.ensures((g, c), true)) by {
                        if i < n {
                            assert(init[i] == hits[i]);
                        }
                    }
                }
            },
            Some(h) => {
                assert(hits[n] == Some(h));
                if let Some(c) = best {
                    let x = choose|i: int| 0 <= i < init.len() && init[i] == Some(c);
                    assert(hits[x] == Some(c));
                    if !closer.ensures((h, c), true) {
                        assert forall|i: int| 0 <= i < hits.len() implies (#[trigger] hits[i] matches Some(g)
                            ==> !closer.ensures((g, c), true)) by {
                            if i < n {
                                assert(init[i] == hits[i]);
                            }
                        }
                    }
                    if closer.ensures((h, c), true) {
                        assert forall|i: int| 0 <= i < hits.len() implies (#[trigger] hits[i] matches Some(g)
                            ==> !closer.ensures((g, h), true)) by {
                            if i < n {
                                if let Some(g) = hits[i] {
                                    assert(init[i] == Some(g));
                                    assert(!closer.ensures((g, c), true));
                                }
                            }
                        }
                    }
                } else {
                    assert forall|i: int| 0 <= i < hits.len() implies (#[trigger] hits[i] matches Some(g)
                        ==> !closer.ensures((g, h), true)) by {
                        if i < n {
                            assert(init[i] is None);
                        }
                    }
                }
            },
        }
    }
}

} // verus!
