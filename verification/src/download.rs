//! The download orchestrator's decisions: flattening the resolved packages
//! into one payload batch, refusing batches with duplicate file names,
//! partitioning probed payloads into satisfied and needing-fetch, and the
//! post-verification decision. The surrounding application performs the file
//! and network work and hands the outcomes back in as plain values.

use vstd::prelude::*;
use crate::catalog::{Package, PackageView, Payload, PayloadView};
use crate::errors::FatalError;
use crate::strings::str_eq;

verus! {

/// The payloads of the packages, in package order then payload order.
pub open spec fn spec_flatten(ps: Seq<PackageView>) -> Seq<PayloadView>
    decreases ps.len(),
{
    if ps.len() == 0 {
        Seq::empty()
    } else {
        ps[0].payloads + spec_flatten(ps.skip(1))
    }
}

proof fn lemma_flatten_push(ps: Seq<PackageView>, p: PackageView)
    ensures
        spec_flatten(ps.push(p)) == spec_flatten(ps) + p.payloads,
    decreases ps.len(),
{
    if ps.len() == 0 {
        assert(ps.push(p)[0] == p);
        assert(ps.push(p).skip(1) =~= Seq::<PackageView>::empty());
        assert(spec_flatten(Seq::<PackageView>::empty()) == Seq::<PayloadView>::empty());
        assert(spec_flatten(ps.push(p)) == p.payloads + Seq::<PayloadView>::empty());
        assert(p.payloads + Seq::<PayloadView>::empty() =~= p.payloads);
        assert(spec_flatten(ps) + p.payloads =~= p.payloads);
        assert(spec_flatten(ps.push(p)) =~= spec_flatten(ps) + p.payloads);
    } else {
        assert(ps.push(p)[0] == ps[0]);
        assert(ps.push(p).skip(1) =~= ps.skip(1).push(p));
        lemma_flatten_push(ps.skip(1), p);
        assert(spec_flatten(ps.push(p)) =~= spec_flatten(ps) + p.payloads);
    }
}

/// Flattens the resolved packages' payloads into the one ordered batch the
/// orchestrator works on.
pub fn flatten_payloads(packages: &Vec<Package>) -> (res: Vec<Payload>)
    ensures
        res@.map_values(|p: Payload| p@) == spec_flatten(
            packages@.map_values(|p: Package| p@),
        ),
{
    let ghost cat = packages@.map_values(|p: Package| p@);
    let mut res: Vec<Payload> = Vec::new();
    let n = packages.len();
    let mut i: usize = 0;
    proof {
        assert(res@.map_values(|p: Payload| p@) =~= spec_flatten(cat.take(0)));
    }
    while i < n
        invariant
            i <= n,
            n == packages@.len(),
            cat == packages@.map_values(|p: Package| p@),
            res@.map_values(|p: Payload| p@) == spec_flatten(cat.take(i as int)),
        decreases n - i,
    {
        let pkg = &packages[i];
        let ghost pv = pkg@;
        let m = pkg.payloads.len();
        let mut j: usize = 0;
        while j < m
            invariant
                j <= m,
                i < n,
                n == packages@.len(),
                m == packages@[i as int].payloads@.len(),
                pv == packages@[i as int]@,
                cat == packages@.map_values(|p: Package| p@),
                res@.map_values(|p: Payload| p@) == spec_flatten(cat.take(i as int))
                    + pv.payloads.take(j as int),
            decreases m - j,
        {
            let ghost res_pre = res@;
            res.push(packages[i].payloads[j].clone());
            proof {
                assert(res@.drop_last() =~= res_pre);
                assert(res@[res@.len() - 1]@ == pv.payloads[j as int]);
                assert(pv.payloads.take(j + 1) =~= pv.payloads.take(j as int).push(
                    pv.payloads[j as int],
                ));
                assert(res@.map_values(|p: Payload| p@) =~= res_pre.map_values(|p: Payload| p@)
                    .push(pv.payloads[j as int]));
                assert(res@.map_values(|p: Payload| p@) =~= spec_flatten(cat.take(i as int))
                    + pv.payloads.take(j + 1));
            }
            j = j + 1;
        }
        proof {
            assert(pv.payloads.take(m as int) =~= pv.payloads);
            assert(cat.take(i + 1) =~= cat.take(i as int).push(cat[i as int]));
            lemma_flatten_push(cat.take(i as int), cat[i as int]);
            assert(res@.map_values(|p: Payload| p@) =~= spec_flatten(cat.take(i + 1)));
        }
        i = i + 1;
    }
    proof {
        assert(cat.take(n as int) =~= cat);
    }
    res
}

/// No two payloads of the batch share a file name.
pub open spec fn names_unique(ps: Seq<PayloadView>) -> bool {
    forall|i: int, j: int| 0 <= i < j < ps.len() ==> ps[i].name != ps[j].name
}

/// The orchestrator's precondition, checked before any I/O: all payload file
/// names of the batch are pairwise distinct, so no download can silently
/// overwrite another's file.
pub fn check_unique_names(payloads: &Vec<Payload>) -> (r: Result<(), FatalError>)
    ensures
        r is Ok <==> names_unique(payloads@.map_values(|p: Payload| p@)),
        r matches Err(e) ==> e == FatalError::DuplicatePayloadName,
{
    let ghost ps = payloads@.map_values(|p: Payload| p@);
    let n = payloads.len();
    let mut i: usize = 0;
    while i < n
        invariant
            i <= n,
            n == payloads@.len(),
            ps == payloads@.map_values(|p: Payload| p@),
            forall|a: int, b: int| 0 <= a < b < i ==> ps[a].name != ps[b].name,
        decreases n - i,
    {
        let mut j: usize = 0;
        while j < i
            invariant
                j <= i < n,
                n == payloads@.len(),
                ps == payloads@.map_values(|p: Payload| p@),
                forall|b: int| 0 <= b < j ==> ps[b].name != ps[i as int].name,
            decreases i - j,
        {
            if str_eq(payloads[j].name.as_str(), payloads[i].name.as_str()) {
                assert(ps[j as int].name == ps[i as int].name);
                return Err(FatalError::DuplicatePayloadName);
            }
            j = j + 1;
        }
        i = i + 1;
    }
    Ok(())
}

/// The probe phase's partition: the indices of the payloads that need a
/// fetch, in the batch's order, given each payload's probe outcome. When
/// every payload is already satisfied the plan is empty and no network
/// activity follows.
pub fn plan_fetches(payloads: &Vec<Payload>, satisfied: &Vec<bool>) -> (res: Vec<usize>)
    requires
        satisfied@.len() == payloads@.len(),
    ensures
        forall|k: int|
            0 <= k < res@.len() ==> res@[k] < payloads@.len() && !satisfied@[res@[k] as int],
        forall|k: int, l: int| 0 <= k < l < res@.len() ==> res@[k] < res@[l],
        forall|i: int|
            0 <= i < satisfied@.len() && !satisfied@[i] ==> exists|k: int|
                0 <= k < res@.len() && #[trigger] res@[k] as int == i,
        res@.len() == 0 <==> (forall|i: int| 0 <= i < satisfied@.len() ==> satisfied@[i]),
{
    let n = payloads.len();
    let mut res: Vec<usize> = Vec::new();
    let mut i: usize = 0;
    while i < n
        invariant
            i <= n,
            n == payloads@.len(),
            satisfied@.len() == n,
            forall|k: int|
                0 <= k < res@.len() ==> res@[k] < i && !satisfied@[res@[k] as int],
            forall|k: int, l: int| 0 <= k < l < res@.len() ==> res@[k] < res@[l],
            forall|i2: int|
                0 <= i2 < i && !satisfied@[i2] ==> exists|k: int|
                    0 <= k < res@.len() && #[trigger] res@[k] as int == i2,
        decreases n - i,
    {
        if !satisfied[i] {
            let ghost res_pre = res@;
            res.push(i);
            proof {
                assert(res@.drop_last() =~= res_pre);
                assert(res@[res@.len() - 1] == i);
                assert forall|i2: int|
                    0 <= i2 < i + 1 && !satisfied@[i2] implies exists|k: int|
                    0 <= k < res@.len() && #[trigger] res@[k] as int == i2 by {
                    if i2 < i {
                        let k = choose|k: int|
                            0 <= k < res_pre.len() && #[trigger] res_pre[k] as int == i2;
                        assert(res@[k] as int == i2);
                    } else {
                        assert(res@[res@.len() - 1] as int == i2);
                    }
                }
            }
        }
        i = i + 1;
    }
    proof {
        if res@.len() > 0 {
            assert(!satisfied@[res@[0] as int]);
        }
    }
    res
}

/// The post-verification decision: after the fetch phase, every payload of
/// the batch must verify against disk; any payload still failing is fatal.
pub fn post_verify(results: &Vec<bool>) -> (r: Result<(), FatalError>)
    ensures
        r is Ok <==> (forall|i: int| 0 <= i < results@.len() ==> results@[i]),
        r matches Err(e) ==> e == FatalError::IntegrityError,
{
    let n = results.len();
    let mut i: usize = 0;
    while i < n
        invariant
            i <= n,
            n == results@.len(),
            forall|j: int| 0 <= j < i ==> results@[j],
        decreases n - i,
    {
        if !results[i] {
            return Err(FatalError::IntegrityError);
        }
        i = i + 1;
    }
    Ok(())
}

} // verus!
