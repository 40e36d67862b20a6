//! Endpoint pool: of the candidate endpoint URLs, keep exactly those whose
//! single liveness probe succeeded.
//!
//! The probe itself (one best-effort remote call, no retry) is the embedding
//! program's job; the library receives one outcome per candidate and builds
//! the pool. A failing candidate is excluded and the build proceeds with
//! whatever subset succeeded, including the empty set.

use vstd::prelude::*;

verus! {

/// The URL views of a sequence of endpoint URLs.
pub open spec fn url_views(us: Seq<String>) -> Seq<Seq<char>> {
    us.map_values(|u: String| u@)
}

/// The live pool: the candidates whose probe succeeded, in candidate order.
pub open spec fn pool_spec(urls: Seq<Seq<char>>, ok: Seq<bool>) -> Seq<Seq<char>>
    decreases urls.len(),
{
    if urls.len() == 0 || ok.len() == 0 {
        Seq::empty()
    } else {
        let rest = pool_spec(urls.drop_last(), ok.drop_last());
        if ok.last() {
            rest.push(urls.last())
        } else {
            rest
        }
    }
}

/// Law: pool membership is exactly probe success. A URL is in the pool if
/// and only if some candidate with that URL probed successfully, whatever
/// the order in which probes completed (the outcome sequence alone decides).
pub proof fn lemma_pool_membership(urls: Seq<Seq<char>>, ok: Seq<bool>, u: Seq<char>)
    requires
        urls.len() == ok.len(),
    ensures
        pool_spec(urls, ok).contains(u) <==> exists|i: int|
            0 <= i < urls.len() && urls[i] == u && ok[i],
    decreases urls.len(),
{
    if urls.len() > 0 {
        lemma_pool_membership(urls.drop_last(), ok.drop_last(), u);
        let rest = pool_spec(urls.drop_last(), ok.drop_last());
        let n = urls.len() - 1;
        if pool_spec(urls, ok).contains(u) {
            if ok.last() && urls.last() == u {
                assert(urls[n] == u && ok[n]);
            } else {
                let j = choose|j: int| 0 <= j < pool_spec(urls, ok).len() && pool_spec(urls, ok)[j]
                    == u;
                assert(rest[j] == u);
                assert(rest.contains(u));
                let i = choose|i: int|
                    0 <= i < urls.drop_last().len() && urls.drop_last()[i] == u && ok.drop_last()[i];
                assert(urls[i] == u && ok[i]);
            }
        }
        if exists|i: int| 0 <= i < urls.len() && urls[i] == u && ok[i] {
            let i = choose|i: int| 0 <= i < urls.len() && urls[i] == u && ok[i];
            if i == n {
                assert(pool_spec(urls, ok).last() == u);
                assert(pool_spec(urls, ok).contains(u));
            } else {
                assert(urls.drop_last()[i] == u && ok.drop_last()[i]);
                assert(rest.contains(u));
                let j = choose|j: int| 0 <= j < rest.len() && rest[j] == u;
                assert(pool_spec(urls, ok)[j] == u);
                assert(pool_spec(urls, ok).contains(u));
            }
        }
    }
}

/// Builds the live pool from the candidate URLs and their probe outcomes.
/// Membership is deterministic given the outcomes: exactly the candidates
/// whose probe succeeded are admitted, in candidate order.
pub fn build_pool(urls: &Vec<String>, probe_ok: &Vec<bool>) -> (pool: Vec<String>)
    requires
        urls@.len() == probe_ok@.len(),
    ensures
        url_views(pool@) == pool_spec(url_views(urls@), probe_ok@),
{
    let mut pool: Vec<String> = Vec::new();
    let mut i: usize = 0;
    while i < urls.len()
        invariant
            i <= urls@.len(),
            urls@.len() == probe_ok@.len(),
            url_views(pool@) == pool_spec(url_views(urls@.take(i as int)), probe_ok@.take(i as int)),
        decreases urls@.len() - i,
    {
        let ghost up = url_views(urls@.take(i as int));
        let ghost op = probe_ok@.take(i as int);
        if probe_ok[i] {
            pool.push(urls[i].clone());
        }
        proof {
            let un = url_views(urls@.take(i + 1 as int));
            let on = probe_ok@.take(i + 1 as int);
            assert(un.drop_last() =~= up);
            assert(on.drop_last() =~= op);
            assert(un.last() == urls@[i as int]@);
            assert(url_views(pool@) =~= pool_spec(un, on));
        }
        i += 1;
    }
    proof {
        assert(urls@.take(urls@.len() as int) =~= urls@);
        assert(probe_ok@.take(probe_ok@.len() as int) =~= probe_ok@);
    }
    pool
}

} // verus!
