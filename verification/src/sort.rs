//! A verified sort of id vectors into strictly ascending lexicographic
//! order; resolution results are sorted this way for determinism.

use vstd::prelude::*;
use crate::strings::{lemma_lex_trichotomy, lex_lt, str_lt};
use crate::resolve::{id_set, unique_views};

verus! {

/// The ids are in strictly ascending lexicographic order.
pub open spec fn strictly_sorted(vs: Seq<String>) -> bool {
    forall|i: int, j: int| 0 <= i < j < vs.len() ==> lex_lt(vs[i]@, vs[j]@)
}

/// Sorts pairwise-distinct ids into strictly ascending order. The result
/// holds exactly the input ids.
pub fn sort_ids(ids: Vec<String>) -> (res: Vec<String>)
    requires
        unique_views(ids@),
    ensures
        strictly_sorted(res@),
        unique_views(res@),
        res@.len() == ids@.len(),
        id_set(res@) == id_set(ids@),
{
    let ghost orig = ids@;
    let mut src = ids;
    let mut out: Vec<String> = Vec::new();
    while src.len() > 0
        invariant
            unique_views(out@),
            unique_views(src@),
            strictly_sorted(out@),
            out@.len() + src@.len() == orig.len(),
            forall|i: int, k: int|
                0 <= i < out@.len() && 0 <= k < src@.len() ==> out@[i]@ != src@[k]@,
            forall|i: int, k: int|
                0 <= i < out@.len() && 0 <= k < src@.len() ==> lex_lt(out@[i]@, src@[k]@),
            forall|y: Seq<char>|
                id_set(orig).contains(y) <==> id_set(out@).contains(y) || id_set(
                    src@,
                ).contains(y),
        decreases src@.len(),
    {
        let n = src.len();
        let mut mi: usize = 0;
        let mut k: usize = 1;
        while k < n
            invariant
                n == src@.len(),
                mi < k <= n,
                unique_views(src@),
                forall|j: int| 0 <= j < k && j != mi ==> lex_lt(src@[mi as int]@, src@[j]@),
            decreases n - k,
        {
            if str_lt(src[k].as_str(), src[mi].as_str()) {
                proof {
                    assert forall|j: int| 0 <= j < k + 1 && j != k as int implies lex_lt(
                        src@[k as int]@,
                        src@[j]@,
                    ) by {
                        if j != mi {
                            crate::strings::lemma_lex_lt_transitive(
                                src@[k as int]@,
                                src@[mi as int]@,
                                src@[j]@,
                            );
                        }
                    }
                }
                mi = k;
            } else {
                proof {
                    lemma_lex_trichotomy(src@[mi as int]@, src@[k as int]@);
                }
            }
            k = k + 1;
        }
        let ghost src_pre = src@;
        let picked = src.remove(mi);
        let ghost x = picked@;
        proof {
            assert(x == src_pre[mi as int]@);
            assert(src@ =~= src_pre.remove(mi as int));
            assert forall|kk: int| #![trigger src@[kk]] 0 <= kk < src@.len() implies (exists|k0: int|
                0 <= k0 < src_pre.len() && k0 != mi && #[trigger] src_pre[k0]@ == src@[kk]@) by {
                if kk < mi {
                    assert(src_pre[kk]@ == src@[kk]@);
                } else {
                    assert(src_pre[kk + 1]@ == src@[kk]@);
                }
            }
        }
        let ghost out_pre = out@;
        out.push(picked);
        proof {
            assert(out@.drop_last() =~= out_pre);
            assert(out@[out@.len() - 1]@ == x);
            assert forall|i: int, kk: int|
                0 <= i < out@.len() && 0 <= kk < src@.len() implies out@[i]@ != src@[kk]@
                && lex_lt(out@[i]@, src@[kk]@) by {
                let k0 = choose|k0: int|
                    0 <= k0 < src_pre.len() && k0 != mi && src_pre[k0]@ == src@[kk]@;
                if i < out@.len() - 1 {
                    assert(out_pre[i]@ == out@[i]@);
                    assert(lex_lt(out@[i]@, src_pre[k0]@));
                } else {
                    assert(lex_lt(src_pre[mi as int]@, src_pre[k0]@));
                }
            }
            assert forall|i: int, j: int| 0 <= i < j < out@.len() implies lex_lt(
                out@[i]@,
                out@[j]@,
            ) by {
                if j == out@.len() - 1 {
                    assert(out_pre[i]@ == out@[i]@);
                    assert(lex_lt(out_pre[i]@, src_pre[mi as int]@));
                }
            }
            assert forall|i: int, j: int| 0 <= i < j < out@.len() implies out@[i]@ != out@[j]@ by {
                if j == out@.len() - 1 {
                    assert(out_pre[i]@ != src_pre[mi as int]@);
                }
            }
            assert forall|y: Seq<char>|
                id_set(orig).contains(y) implies id_set(out@).contains(y) || id_set(
                src@,
            ).contains(y) by {
                if id_set(out_pre).contains(y) {
                    let k0 = choose|k0: int| 0 <= k0 < out_pre.len() && out_pre[k0]@ == y;
                    assert(out@[k0]@ == y);
                } else {
                    assert(id_set(src_pre).contains(y));
                    let k0 = choose|k0: int| 0 <= k0 < src_pre.len() && src_pre[k0]@ == y;
                    if k0 == mi {
                        assert(out@[out@.len() - 1]@ == y);
                    } else if k0 < mi {
                        assert(src@[k0]@ == y);
                    } else {
                        assert(src@[k0 - 1]@ == y);
                    }
                }
            }
            assert forall|y: Seq<char>|
                id_set(out@).contains(y) || id_set(src@).contains(y) implies id_set(
                orig,
            ).contains(y) by {
                if id_set(out@).contains(y) {
                    let k0 = choose|k0: int| 0 <= k0 < out@.len() && out@[k0]@ == y;
                    if k0 < out@.len() - 1 {
                        assert(out_pre[k0]@ == y);
                    } else {
                        assert(src_pre[mi as int]@ == y);
                        assert(id_set(src_pre).contains(y));
                    }
                } else {
                    let kk = choose|kk: int| 0 <= kk < src@.len() && src@[kk]@ == y;
                    let k0 = choose|k0: int|
                        0 <= k0 < src_pre.len() && k0 != mi && src_pre[k0]@ == src@[kk]@;
                    assert(id_set(src_pre).contains(y));
                }
            }
        }
    }
    proof {
        assert forall|y: Seq<char>| id_set(out@).contains(y) <==> id_set(orig).contains(y) by {
            assert(src@.len() == 0);
            if id_set(src@).contains(y) {
                let k = choose|k: int| 0 <= k < src@.len() && src@[k]@ == y;
            }
        }
        assert(id_set(out@) =~= id_set(orig));
    }
    out
}

} // verus!
