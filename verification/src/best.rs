//! Best-server-per-location selection: one entry per distinct
//! (country, city) pair of the ranked input, holding the entry with
//! the minimum load for that pair; on an exact load tie the
//! first-seen entry wins and distance is not reconsulted.

use vstd::prelude::*;
use crate::model::{models, Server, ServerModel};

verus! {

/// Whether some entry of `s` carries the location key `k`.
pub open spec fn spec_contains_key(s: Seq<ServerModel>, k: (Seq<char>, Seq<char>)) -> bool {
    exists|i: int| 0 <= i < s.len() && (#[trigger] s[i]).loc_key() == k
}

/// The distinct location keys of `s`, in first-occurrence order.
pub open spec fn spec_keys(s: Seq<ServerModel>) -> Seq<(Seq<char>, Seq<char>)>
    decreases s.len(),
{
    if s.len() == 0 {
        Seq::empty()
    } else {
        let dl = s.drop_last();
        spec_keys(dl) + (if spec_contains_key(dl, s.last().loc_key()) {
            Seq::empty()
        } else {
            seq![s.last().loc_key()]
        })
    }
}

/// The champion of location key `k` in `s`: the first entry carrying
/// `k`, replaced as the scan proceeds only by an entry with a strictly
/// lower load.
pub open spec fn spec_best(s: Seq<ServerModel>, k: (Seq<char>, Seq<char>)) -> ServerModel
    decreases s.len(),
{
    if s.len() == 0 {
        arbitrary()
    } else {
        let dl = s.drop_last();
        if s.last().loc_key() == k {
            if spec_contains_key(dl, k) {
                let b = spec_best(dl, k);
                if s.last().load < b.load {
                    s.last()
                } else {
                    b
                }
            } else {
                s.last()
            }
        } else {
            spec_best(dl, k)
        }
    }
}

/// The champion of a present key is an entry of the sequence with that
/// key, and its load is at or below the load of every entry sharing
/// the key.
pub proof fn lemma_best_min(s: Seq<ServerModel>, k: (Seq<char>, Seq<char>))
    requires
        spec_contains_key(s, k),
    ensures
        exists|i: int|
            0 <= i < s.len() && #[trigger] s[i] == spec_best(s, k) && s[i].loc_key() == k,
        forall|i: int|
            0 <= i < s.len() && (#[trigger] s[i]).loc_key() == k ==> spec_best(s, k).load
                <= s[i].load,
    decreases s.len(),
{
    let dl = s.drop_last();
    let l = s.last();
    assert(forall|i: int| 0 <= i < dl.len() ==> s[i] == #[trigger] dl[i]);
    if l.loc_key() == k {
        assert(s[s.len() - 1] == l);
        if spec_contains_key(dl, k) {
            lemma_best_min(dl, k);
            let b = spec_best(dl, k);
            let w = choose|i: int|
                0 <= i < dl.len() && #[trigger] dl[i] == spec_best(dl, k) && dl[i].loc_key() == k;
            assert(s[w] == dl[w]);
            assert(spec_best(s, k) == (if l.load < b.load { l } else { b }));
            assert forall|i: int|
                0 <= i < s.len() && (#[trigger] s[i]).loc_key() == k implies spec_best(s, k).load
                <= s[i].load by {
                if i < s.len() - 1 {
                    assert(dl[i].loc_key() == k);
                    assert(b.load <= dl[i].load);
                }
            }
        } else {
            assert(spec_best(s, k) == l);
            assert forall|i: int|
                0 <= i < s.len() && (#[trigger] s[i]).loc_key() == k implies spec_best(s, k).load
                <= s[i].load by {
                if i < s.len() - 1 {
                    assert(dl[i].loc_key() == k);
                    assert(spec_contains_key(dl, k));
                }
            }
        }
    } else {
        let w0 = choose|i: int| 0 <= i < s.len() && (#[trigger] s[i]).loc_key() == k;
        assert(w0 < s.len() - 1);
        assert(dl[w0] == s[w0]);
        assert(spec_contains_key(dl, k));
        lemma_best_min(dl, k);
        let w = choose|i: int|
            0 <= i < dl.len() && #[trigger] dl[i] == spec_best(dl, k) && dl[i].loc_key() == k;
        assert(s[w] == dl[w]);
        assert(spec_best(s, k) == spec_best(dl, k));
        assert forall|i: int|
            0 <= i < s.len() && (#[trigger] s[i]).loc_key() == k implies spec_best(s, k).load
            <= s[i].load by {
            assert(i < s.len() - 1);
            assert(dl[i] == s[i]);
            assert(dl[i].loc_key() == k);
            assert(spec_best(dl, k).load <= dl[i].load);
        }
    }
}

/// Every key of `spec_keys` is present, every present key is listed,
/// and no key is listed twice.
pub proof fn lemma_keys_sound(s: Seq<ServerModel>)
    ensures
        forall|k: (Seq<char>, Seq<char>)|
            spec_keys(s).contains(k) <==> #[trigger] spec_contains_key(s, k),
        forall|a: int, b: int|
            0 <= a < b < spec_keys(s).len() ==> #[trigger] spec_keys(s)[a] != #[trigger] spec_keys(
                s,
            )[b],
    decreases s.len(),
{
    if s.len() > 0 {
        let dl = s.drop_last();
        lemma_keys_sound(dl);
        let lk = s.last().loc_key();
        assert(forall|i: int| 0 <= i < dl.len() ==> s[i] == #[trigger] dl[i]);
        assert forall|k: (Seq<char>, Seq<char>)| #[trigger]
            spec_contains_key(s, k) implies spec_keys(s).contains(k) by {
            let w = choose|i: int| 0 <= i < s.len() && (#[trigger] s[i]).loc_key() == k;
            if w < s.len() - 1 {
                assert(dl[w].loc_key() == k);
                assert(spec_contains_key(dl, k));
                assert(spec_keys(dl).contains(k));
                let p = choose|p: int| 0 <= p < spec_keys(dl).len() && spec_keys(dl)[p] == k;
                assert(spec_keys(s)[p] == k);
            } else {
                if spec_contains_key(dl, lk) {
                    assert(spec_keys(dl).contains(k));
                    let p = choose|p: int| 0 <= p < spec_keys(dl).len() && spec_keys(dl)[p] == k;
                    assert(spec_keys(s)[p] == k);
                } else {
                    assert(spec_keys(s)[spec_keys(s).len() - 1] == k);
                }
            }
        }
        assert forall|k: (Seq<char>, Seq<char>)| spec_keys(s).contains(
            k,
        ) implies #[trigger] spec_contains_key(s, k) by {
            let p = choose|p: int| 0 <= p < spec_keys(s).len() && spec_keys(s)[p] == k;
            if p < spec_keys(dl).len() {
                assert(spec_keys(s)[p] == spec_keys(dl)[p]);
                assert(spec_keys(dl).contains(k));
                assert(spec_contains_key(dl, k));
                let w = choose|i: int| 0 <= i < dl.len() && (#[trigger] dl[i]).loc_key() == k;
                assert(s[w] == dl[w]);
            } else {
                assert(k == lk);
                assert(s[s.len() - 1].loc_key() == k);
            }
        }
        assert forall|a: int, b: int| 0 <= a < b < spec_keys(s).len() implies #[trigger] spec_keys(
            s,
        )[a] != #[trigger] spec_keys(s)[b] by {
            if b < spec_keys(dl).len() {
                assert(spec_keys(s)[a] == spec_keys(dl)[a]);
                assert(spec_keys(s)[b] == spec_keys(dl)[b]);
            } else {
                assert(!spec_contains_key(dl, lk));
                assert(spec_keys(s)[b] == lk);
                assert(spec_keys(s)[a] == spec_keys(dl)[a]);
                assert(spec_keys(dl).contains(spec_keys(dl)[a]));
                assert(spec_contains_key(dl, spec_keys(dl)[a]));
            }
        }
    }
}

/// The location keys of a sequence of ranked servers, in order.
pub open spec fn keys_of(s: Seq<ServerModel>) -> Seq<(Seq<char>, Seq<char>)> {
    s.map_values(|m: ServerModel| m.loc_key())
}

/// One best server per distinct (country, city) pair of the ranked
/// input, in first-occurrence order of the pairs. Each returned entry
/// is the champion of its pair: an input entry carrying that pair
/// whose load is at or below the load of every input entry sharing
/// the pair, the earliest such entry winning exact load ties.
pub fn best_per_location(ranked: &Vec<Server>) -> (best: Vec<Server>)
    ensures
        keys_of(models(best@)) == spec_keys(models(ranked@)),
        forall|j: int|
            0 <= j < best@.len() ==> #[trigger] models(best@)[j] == spec_best(
                models(ranked@),
                models(best@)[j].loc_key(),
            ),
        forall|j: int, i: int|
            0 <= j < best@.len() && 0 <= i < ranked@.len() && (#[trigger] models(
                ranked@,
            )[i]).loc_key() == (#[trigger] models(best@)[j]).loc_key() ==> models(best@)[j].load
                <= models(ranked@)[i].load,
{
    let ghost all = models(ranked@);
    let mut best: Vec<Server> = Vec::new();
    let mut i: usize = 0;
    while i < ranked.len()
        invariant
            i <= ranked@.len(),
            all == models(ranked@),
            keys_of(models(best@)) == spec_keys(all.take(i as int)),
            forall|j: int|
                0 <= j < best@.len() ==> #[trigger] models(best@)[j] == spec_best(
                    all.take(i as int),
                    models(best@)[j].loc_key(),
                ),
        decreases ranked@.len() - i,
    {
        let ghost prefix = all.take(i as int);
        proof {
            lemma_keys_sound(prefix);
            assert(all.take(i + 1).drop_last() =~= prefix);
            assert(all.take(i + 1).last() == all[i as int]);
            assert(models(ranked@)[i as int] == ranked@[i as int]@);
            assert(forall|t: int| 0 <= t < prefix.len() ==> all.take(i + 1)[t] == #[trigger] prefix[t]);
        }
        let cur = &ranked[i];
        let ghost ck = cur@.loc_key();
        let ghost next = all.take(i + 1);
        let mut found: bool = false;
        let mut at: usize = 0;
        let mut j: usize = 0;
        while j < best.len() && !found
            invariant
                j <= best@.len(),
                ck == cur@.loc_key(),
                !found ==> forall|t: int|
                    0 <= t < j ==> (#[trigger] models(best@)[t]).loc_key() != ck,
                found ==> at < best@.len() && models(best@)[at as int].loc_key() == ck,
            decreases best@.len() - j + (if found { 0int } else { 1int }),
        {
            let cand = &best[j];
            if cand.country == cur.country && cand.city == cur.city {
                proof {
                    assert(models(best@)[j as int].loc_key() == ck);
                }
                found = true;
                at = j;
            } else {
                proof {
                    assert(models(best@)[j as int].loc_key() != ck);
                }
                j = j + 1;
            }
        }
        if found {
            let ghost oldm = models(best@);
            proof {
                // the key is already present, so the key list is unchanged
                assert(keys_of(oldm)[at as int] == ck);
                assert(spec_contains_key(prefix, ck)) by {
                    assert(spec_keys(prefix).contains(ck)) by {
                        assert(spec_keys(prefix)[at as int] == ck);
                    }
                }
                assert(spec_keys(next) =~= spec_keys(prefix));
            }
            let replace = cur.load < best[at].load;
            if replace {
                let replacement = cur.duplicate();
                let _ = best.remove(at);
                best.insert(at, replacement);
                proof {
                    assert(models(best@) =~= oldm.update(at as int, cur@));
                }
            }
            proof {
                let newm = models(best@);
                assert(newm.len() == oldm.len());
                assert(forall|t: int|
                    0 <= t < oldm.len() && t != at ==> #[trigger] newm[t] == oldm[t]);
                assert(newm[at as int].loc_key() == ck);
                assert(keys_of(newm) =~= keys_of(oldm));
                // champion update at the found slot, untouched elsewhere
                assert forall|jj: int| 0 <= jj < newm.len() implies #[trigger] newm[jj]
                    == spec_best(next, newm[jj].loc_key()) by {
                    if jj == at {
                        assert(oldm[jj] == spec_best(prefix, ck));
                        assert(next.last().loc_key() == ck);
                        if replace {
                            assert(newm[jj] == all[i as int]);
                        } else {
                            assert(newm[jj] == oldm[jj]);
                        }
                    } else {
                        let kj = newm[jj].loc_key();
                        assert(keys_of(oldm)[jj] == kj);
                        assert(spec_keys(prefix)[jj] == kj);
                        assert(spec_keys(prefix)[at as int] == ck);
                        assert(kj != ck);
                        assert(next.last().loc_key() != kj);
                        assert(spec_best(next, kj) == spec_best(prefix, kj));
                        assert(newm[jj] == oldm[jj]);
                    }
                }
            }
        } else {
            proof {
                assert(forall|t: int|
                    0 <= t < best@.len() ==> (#[trigger] models(best@)[t]).loc_key() != ck);
                assert(!spec_contains_key(prefix, ck)) by {
                    if spec_contains_key(prefix, ck) {
                        assert(spec_keys(prefix).contains(ck));
                        let p = choose|p: int|
                            0 <= p < spec_keys(prefix).len() && spec_keys(prefix)[p] == ck;
                        assert(keys_of(models(best@))[p] == ck);
                        assert(models(best@)[p].loc_key() == ck);
                    }
                }
                assert(spec_keys(next) =~= spec_keys(prefix).push(ck));
                assert(spec_best(next, ck) == all[i as int]);
            }
            let ghost oldm = models(best@);
            let fresh = cur.duplicate();
            best.push(fresh);
            proof {
                let newm = models(best@);
                assert(newm =~= oldm.push(cur@));
                assert(keys_of(newm) =~= keys_of(oldm).push(ck));
                assert(keys_of(newm) =~= spec_keys(next));
                assert forall|jj: int| 0 <= jj < newm.len() implies #[trigger] newm[jj]
                    == spec_best(next, newm[jj].loc_key()) by {
                    if jj == newm.len() - 1 {
                        assert(newm[jj] == all[i as int]);
                        assert(newm[jj].loc_key() == ck);
                    } else {
                        let kj = newm[jj].loc_key();
                        assert(newm[jj] == oldm[jj]);
                        assert(keys_of(oldm)[jj] == kj);
                        assert(spec_keys(prefix)[jj] == kj);
                        assert(spec_keys(prefix).contains(kj));
                        assert(spec_contains_key(prefix, kj));
                        assert(kj != ck) by {
                            if kj == ck {
                                assert(spec_contains_key(prefix, ck));
                            }
                        }
                        assert(next.last().loc_key() != kj);
                        assert(spec_best(next, kj) == spec_best(prefix, kj));
                    }
                }
            }
        }
        i = i + 1;
    }
    proof {
        assert(all.take(all.len() as int) =~= all);
        assert forall|j: int, i2: int|
            0 <= j < best@.len() && 0 <= i2 < ranked@.len() && (#[trigger] models(
                ranked@,
            )[i2]).loc_key() == (#[trigger] models(best@)[j]).loc_key() implies models(
            best@,
        )[j].load <= models(ranked@)[i2].load by {
            let kj = models(best@)[j].loc_key();
            assert(spec_contains_key(all, kj)) by {
                assert(all[i2].loc_key() == kj);
            }
            lemma_best_min(all, kj);
            assert(models(best@)[j] == spec_best(all, kj));
        }
    }
    best
}

} // verus!
