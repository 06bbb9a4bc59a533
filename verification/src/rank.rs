//! The ranking stage: normalize raw records into ranked servers and
//! stable-sort them by load, then distance. A record contributes its
//! first listed location only; records without a usable WireGuard
//! public key are dropped (and counted). Stability is proved as a law:
//! for every rank key, the sorted output preserves the input's order
//! of the entries carrying that key.

use vstd::prelude::*;
use vstd::multiset::Multiset;
use vstd::string::StrSliceExecFns;
use vstd::string::StringExecFns;
use crate::geo::{calculate_distance, spec_distance_km, LAT_LIMIT_UDEG, LON_LIMIT_UDEG};
use crate::model::{models, Metadata, Server, ServerModel, ServerResponse, Technology};

verus! {

/// The first technology entry whose identifier is `wireguard_udp`.
pub open spec fn spec_find_wg_tech(ts: Seq<Technology>) -> Option<Technology>
    decreases ts.len(),
{
    if ts.len() == 0 {
        None
    } else if ts[0].identifier@ == "wireguard_udp"@ {
        Some(ts[0])
    } else {
        spec_find_wg_tech(ts.drop_first())
    }
}

/// The first metadata entry named `public_key`.
pub open spec fn spec_find_pubkey_meta(ms: Seq<Metadata>) -> Option<Metadata>
    decreases ms.len(),
{
    if ms.len() == 0 {
        None
    } else if ms[0].name@ == "public_key"@ {
        Some(ms[0])
    } else {
        spec_find_pubkey_meta(ms.drop_first())
    }
}

/// The WireGuard public key of a raw record: the `public_key` metadata
/// of its first `wireguard_udp` technology entry.
pub open spec fn spec_public_key(r: ServerResponse) -> Option<Seq<char>> {
    match spec_find_wg_tech(r.technologies@) {
        Some(t) => match spec_find_pubkey_meta(t.metadata@) {
            Some(m) => Some(m.value@),
            None => None,
        },
        None => None,
    }
}

/// A raw record survives ranking: it has a location and a non-empty
/// WireGuard public key.
pub open spec fn spec_eligible(r: ServerResponse) -> bool {
    &&& r.locations@.len() > 0
    &&& spec_public_key(r) is Some
    &&& spec_public_key(r)->0.len() > 0
}

/// The ranked server an eligible raw record becomes, for a user at
/// the given position (microdegrees). Only the record's first listed
/// location counts; later locations are deliberately ignored.
pub open spec fn spec_entry_model(r: ServerResponse, ulat: int, ulon: int) -> ServerModel {
    let loc = r.locations@[0];
    ServerModel {
        name: r.name@,
        hostname: r.hostname@,
        station: r.station@,
        load: if r.load is Some {
            r.load->0 as int
        } else {
            100
        },
        country: loc.country.name@,
        city: match loc.country.city {
            Some(c) => c.name@,
            None => "unknown"@,
        },
        latitude_udeg: loc.latitude_udeg as int,
        longitude_udeg: loc.longitude_udeg as int,
        public_key: spec_public_key(r)->0,
        distance_km: spec_distance_km(
            ulat,
            ulon,
            loc.latitude_udeg as int,
            loc.longitude_udeg as int,
        ),
    }
}

/// The eligible records of the listing, normalized, in listing order.
pub open spec fn spec_selected(rs: Seq<ServerResponse>, ulat: int, ulon: int) -> Seq<ServerModel>
    decreases rs.len(),
{
    if rs.len() == 0 {
        Seq::empty()
    } else {
        spec_selected(rs.drop_last(), ulat, ulon) + (if spec_eligible(rs.last()) {
            seq![spec_entry_model(rs.last(), ulat, ulon)]
        } else {
            Seq::empty()
        })
    }
}

/// Insert one entry into a load/distance-sorted sequence, after every
/// entry that compares at or below it — the stable position.
pub open spec fn spec_insert_sorted(s: Seq<ServerModel>, x: ServerModel) -> Seq<ServerModel>
    decreases s.len(),
{
    if s.len() == 0 {
        seq![x]
    } else if s.last().key_le(x) {
        s.push(x)
    } else {
        spec_insert_sorted(s.drop_last(), x).push(s.last())
    }
}

/// Stable insertion sort by (load, distance), ascending.
pub open spec fn spec_sort(s: Seq<ServerModel>) -> Seq<ServerModel>
    decreases s.len(),
{
    if s.len() == 0 {
        Seq::empty()
    } else {
        spec_insert_sorted(spec_sort(s.drop_last()), s.last())
    }
}

/// Sorted by the rank key: load ascending, distance breaking ties.
pub open spec fn spec_sorted(s: Seq<ServerModel>) -> bool {
    forall|i: int, j: int| 0 <= i < j < s.len() ==> #[trigger] s[i].key_le(#[trigger] s[j])
}

/// The predicate selecting entries of one exact rank key.
pub open spec fn same_rank_key(load: int, dist: int) -> spec_fn(ServerModel) -> bool {
    |m: ServerModel| m.load == load && m.distance_km == dist
}

/// Inserting an entry appends it to the filtered subsequence of its
/// own rank key and leaves every other key's subsequence unchanged.
proof fn lemma_insert_filter(s: Seq<ServerModel>, x: ServerModel, pred: spec_fn(ServerModel) -> bool)
    requires
        forall|a: ServerModel, b: ServerModel|
            #[trigger] pred(a) && #[trigger] pred(b) ==> a.load == b.load && a.distance_km
                == b.distance_km,
    ensures
        spec_insert_sorted(s, x).filter(pred) == (if pred(x) {
            s.filter(pred).push(x)
        } else {
            s.filter(pred)
        }),
    decreases s.len(),
{
    reveal(Seq::filter);
    if s.len() == 0 {
        assert(spec_insert_sorted(s, x) =~= seq![x]);
        assert(seq![x].drop_last() =~= Seq::<ServerModel>::empty());
        assert(s.filter(pred) =~= Seq::<ServerModel>::empty());
    } else if s.last().key_le(x) {
        assert(s.push(x).drop_last() =~= s);
    } else {
        let dl = s.drop_last();
        let l = s.last();
        lemma_insert_filter(dl, x, pred);
        let inner = spec_insert_sorted(dl, x);
        assert(inner.push(l).drop_last() =~= inner);
        if pred(x) {
            // the last element compares strictly above x, so it cannot
            // share x's rank key
            assert(!pred(l));
            assert(s.filter(pred) == dl.filter(pred));
        } else {
            if pred(l) {
                assert(s.filter(pred) == dl.filter(pred).push(l));
            } else {
                assert(s.filter(pred) == dl.filter(pred));
            }
        }
    }
}

proof fn lemma_sort_filter(s: Seq<ServerModel>, pred: spec_fn(ServerModel) -> bool)
    requires
        forall|a: ServerModel, b: ServerModel|
            #[trigger] pred(a) && #[trigger] pred(b) ==> a.load == b.load && a.distance_km
                == b.distance_km,
    ensures
        spec_sort(s).filter(pred) == s.filter(pred),
    decreases s.len(),
{
    reveal(Seq::filter);
    if s.len() > 0 {
        let dl = s.drop_last();
        lemma_sort_filter(dl, pred);
        lemma_insert_filter(spec_sort(dl), s.last(), pred);
    }
}

/// Ranking is stable: for any rank key (a load paired with a
/// distance), the entries carrying exactly that key appear in the
/// sorted output in the same order, and the same number of times, as
/// in the input.
pub proof fn lemma_rank_stable(s: Seq<ServerModel>, load: int, dist: int)
    ensures
        spec_sort(s).filter(same_rank_key(load, dist)) == s.filter(same_rank_key(load, dist)),
{
    lemma_sort_filter(s, same_rank_key(load, dist));
}

/// Insertion preserves the multiset of entries.
proof fn lemma_insert_multiset(s: Seq<ServerModel>, x: ServerModel)
    ensures
        spec_insert_sorted(s, x).to_multiset() =~= s.to_multiset().insert(x),
    decreases s.len(),
{
    broadcast use vstd::seq_lib::group_to_multiset_ensures;

    if s.len() == 0 {
        assert(spec_insert_sorted(s, x) =~= Seq::<ServerModel>::empty().push(x));
        assert(s.to_multiset() =~= Multiset::<ServerModel>::empty());
    } else if s.last().key_le(x) {
    } else {
        let dl = s.drop_last();
        lemma_insert_multiset(dl, x);
        assert(dl.push(s.last()) =~= s);
    }
}

/// Sorting preserves the multiset of entries: nothing is added,
/// dropped or duplicated.
pub proof fn lemma_sort_multiset(s: Seq<ServerModel>)
    ensures
        spec_sort(s).to_multiset() =~= s.to_multiset(),
    decreases s.len(),
{
    broadcast use vstd::seq_lib::group_to_multiset_ensures;

    if s.len() > 0 {
        let dl = s.drop_last();
        lemma_sort_multiset(dl);
        lemma_insert_multiset(spec_sort(dl), s.last());
        assert(dl.push(s.last()) =~= s);
    }
}

/// A pointwise property of all entries survives sorting.
pub proof fn lemma_sort_preserves_all(s: Seq<ServerModel>, pred: spec_fn(ServerModel) -> bool)
    requires
        forall|i: int| 0 <= i < s.len() ==> pred(#[trigger] s[i]),
    ensures
        forall|i: int| 0 <= i < spec_sort(s).len() ==> pred(#[trigger] spec_sort(s)[i]),
{
    broadcast use vstd::seq_lib::group_to_multiset_ensures;

    lemma_sort_multiset(s);
    let t = spec_sort(s);
    assert forall|i: int| 0 <= i < t.len() implies pred(t[i]) by {
        assert(t.to_multiset().count(t[i]) > 0);
        assert(s.to_multiset().count(t[i]) > 0);
        assert(s.contains(t[i]));
        let j = choose|j: int| 0 <= j < s.len() && s[j] == t[i];
        assert(pred(s[j]));
    }
}

/// The exact shape of an insertion at a scanned position.
proof fn lemma_insert_sorted_at(s: Seq<ServerModel>, x: ServerModel, p: int)
    requires
        0 <= p <= s.len(),
        forall|k: int| p <= k < s.len() ==> !(#[trigger] s[k]).key_le(x),
        p > 0 ==> s[p - 1].key_le(x),
    ensures
        spec_insert_sorted(s, x) == s.take(p) + seq![x] + s.skip(p),
    decreases s.len(),
{
    if p == s.len() {
        if s.len() == 0 {
            assert(spec_insert_sorted(s, x) =~= s.take(p) + seq![x] + s.skip(p));
        } else {
            assert(s[p - 1] == s.last());
            assert(spec_insert_sorted(s, x) == s.push(x));
            assert(s.push(x) =~= s.take(p) + seq![x] + s.skip(p));
        }
    } else {
        assert(!s[s.len() - 1].key_le(x));
        let dl = s.drop_last();
        assert(forall|k: int| p <= k < dl.len() ==> !(#[trigger] dl[k]).key_le(x));
        if p > 0 {
            assert(dl[p - 1] == s[p - 1]);
        }
        lemma_insert_sorted_at(dl, x, p);
        assert((dl.take(p) + seq![x] + dl.skip(p)).push(s.last()) =~= s.take(p) + seq![x]
            + s.skip(p));
    }
}

/// Insert `x` into the sorted vector `v` at its stable position.
fn insert_one(v: &mut Vec<Server>, x: Server)
    requires
        spec_sorted(models(old(v)@)),
        old(v)@.len() < usize::MAX,
    ensures
        models(final(v)@) == spec_insert_sorted(models(old(v)@), x@),
        spec_sorted(models(final(v)@)),
        final(v)@.len() == old(v)@.len() + 1,
{
    let ghost m0 = models(v@);
    let mut p: usize = v.len();
    loop
        invariant_except_break
            p <= v@.len(),
            m0 == models(v@),
            forall|k: int| p <= k < m0.len() ==> !(#[trigger] m0[k]).key_le(x@),
        ensures
            p <= v@.len(),
            m0 == models(v@),
            forall|k: int| p <= k < m0.len() ==> !(#[trigger] m0[k]).key_le(x@),
            p > 0 ==> m0[p - 1].key_le(x@),
        decreases p,
    {
        if p == 0 {
            break ;
        }
        let prev = &v[p - 1];
        let le = prev.load < x.load || (prev.load == x.load && prev.distance_km <= x.distance_km);
        proof {
            assert(m0[p - 1] == v@[p - 1]@);
        }
        if le {
            break ;
        }
        p = p - 1;
    }
    proof {
        lemma_insert_sorted_at(m0, x@, p as int);
    }
    v.insert(p, x);
    proof {
        assert(models(v@) =~= m0.take(p as int) + seq![x@] + m0.skip(p as int));
        let t = models(v@);
        assert forall|i: int, j: int| 0 <= i < j < t.len() implies t[i].key_le(t[j]) by {
            if i < p && j < p {
                assert(t[i] == m0[i] && t[j] == m0[j]);
            } else if i < p && j == p {
                assert(t[i] == m0[i]);
                assert(m0[i].key_le(m0[p - 1]) || i == p - 1);
                assert(m0[p - 1].key_le(x@));
            } else if i < p && j > p {
                assert(t[i] == m0[i] && t[j] == m0[j - 1]);
            } else if i == p && j > p {
                assert(t[j] == m0[j - 1]);
                assert(!m0[j - 1].key_le(x@));
            } else {
                assert(t[i] == m0[i - 1] && t[j] == m0[j - 1]);
            }
        }
    }
}

/// The public key of a raw record, if its technologies list one under
/// `wireguard_udp`.
fn extract_public_key(r: &ServerResponse) -> (k: Option<String>)
    ensures
        k is Some <==> spec_public_key(*r) is Some,
        k is Some ==> k->0@ == spec_public_key(*r)->0,
{
    let wg = String::from_str("wireguard_udp");
    let pk = String::from_str("public_key");
    let ts = &r.technologies;
    proof {
        assert(ts@.skip(0) =~= ts@);
    }
    let mut i: usize = 0;
    while i < ts.len()
        invariant
            i <= ts@.len(),
            ts@ == r.technologies@,
            wg@ == "wireguard_udp"@,
            pk@ == "public_key"@,
            spec_find_wg_tech(ts@) == spec_find_wg_tech(ts@.skip(i as int)),
            forall|j: int| 0 <= j < i ==> (#[trigger] ts@[j]).identifier@ != "wireguard_udp"@,
        decreases ts@.len() - i,
    {
        proof {
            assert(ts@.skip(i as int)[0] == ts@[i as int]);
        }
        if ts[i].identifier == wg {
            proof {
                assert(spec_find_wg_tech(ts@.skip(i as int)) == Some(ts@[i as int]));
            }
            let ms = &ts[i].metadata;
            proof {
                assert(ms@.skip(0) =~= ms@);
                assert(spec_find_wg_tech(ts@) == Some(ts@[i as int]));
            }
            let mut j: usize = 0;
            while j < ms.len()
                invariant
                    j <= ms@.len(),
                    i < ts@.len(),
                    pk@ == "public_key"@,
                    ms@ == ts@[i as int].metadata@,
                    spec_find_wg_tech(ts@) == Some(ts@[i as int]),
                    ts@ == r.technologies@,
                    spec_find_pubkey_meta(ms@) == spec_find_pubkey_meta(ms@.skip(j as int)),
                decreases ms@.len() - j,
            {
                proof {
                    assert(ms@.skip(j as int)[0] == ms@[j as int]);
                }
                if ms[j].name == pk {
                    proof {
                        assert(spec_find_pubkey_meta(ms@.skip(j as int)) == Some(ms@[j as int]));
                        assert(spec_find_wg_tech(ts@) == Some(ts@[i as int]));
                        assert(spec_public_key(*r) == Some(ms@[j as int].value@));
                    }
                    return Some(ms[j].value.clone());
                }
                proof {
                    assert(ms@.skip(j as int).drop_first() =~= ms@.skip(j + 1));
                }
                j = j + 1;
            }
            proof {
                assert(ms@.skip(ms@.len() as int) =~= Seq::<Metadata>::empty());
                assert(spec_find_pubkey_meta(ms@) is None);
                assert(spec_find_wg_tech(ts@) == Some(ts@[i as int]));
                assert(spec_public_key(*r) is None);
            }
            return None;
        }
        proof {
            assert(ts@.skip(i as int).drop_first() =~= ts@.skip(i + 1));
        }
        i = i + 1;
    }
    proof {
        assert(ts@.skip(ts@.len() as int) =~= Seq::<Technology>::empty());
        assert(spec_find_wg_tech(ts@) is None);
        assert(spec_public_key(*r) is None);
    }
    None
}

/// Normalize and rank a raw listing for a user at the given position
/// (microdegrees). Each surviving record carries its first location,
/// its distance from the user and its WireGuard public key; records
/// without a usable key or without a location are dropped, and their
/// count is returned alongside. The result is the stable sort of the
/// survivors by load, then distance, ascending.
pub fn process_servers(servers: &Vec<ServerResponse>, ulat_udeg: i64, ulon_udeg: i64) -> (r: (
    Vec<Server>,
    usize,
))
    requires
        -LAT_LIMIT_UDEG <= ulat_udeg <= LAT_LIMIT_UDEG,
        -LON_LIMIT_UDEG <= ulon_udeg <= LON_LIMIT_UDEG,
        forall|i: int| 0 <= i < servers@.len() ==> (#[trigger] servers@[i]).wf(),
    ensures
        models(r.0@) == spec_sort(spec_selected(servers@, ulat_udeg as int, ulon_udeg as int)),
        spec_sorted(models(r.0@)),
        r.0@.len() + r.1 == servers@.len(),
        forall|i: int| 0 <= i < r.0@.len() ==> (#[trigger] models(r.0@)[i]).wf(),
{
    let ghost ulat = ulat_udeg as int;
    let ghost ulon = ulon_udeg as int;
    let mut picked: Vec<Server> = Vec::new();
    let mut dropped: usize = 0;
    let mut i: usize = 0;
    while i < servers.len()
        invariant
            i <= servers@.len(),
            -LAT_LIMIT_UDEG <= ulat_udeg <= LAT_LIMIT_UDEG,
            -LON_LIMIT_UDEG <= ulon_udeg <= LON_LIMIT_UDEG,
            ulat == ulat_udeg as int,
            ulon == ulon_udeg as int,
            forall|k: int| 0 <= k < servers@.len() ==> (#[trigger] servers@[k]).wf(),
            models(picked@) == spec_selected(servers@.take(i as int), ulat, ulon),
            picked@.len() + dropped == i,
            forall|k: int| 0 <= k < picked@.len() ==> (#[trigger] models(picked@)[k]).wf(),
        decreases servers@.len() - i,
    {
        let ghost prefix = servers@.take(i as int);
        proof {
            assert(servers@.take(i + 1).drop_last() =~= prefix);
            assert(servers@.take(i + 1).last() == servers@[i as int]);
        }
        let rec = &servers[i];
        let mut entry: Option<Server> = None;
        if rec.locations.len() > 0 {
            match extract_public_key(rec) {
                Some(key) => {
                    if !key.as_str().is_empty() {
                        let loc = &rec.locations[0];
                        let load = match rec.load {
                            Some(l) => l,
                            None => 100,
                        };
                        let city = match &loc.country.city {
                            Some(c) => c.name.clone(),
                            None => String::from_str("unknown"),
                        };
                        let dist = calculate_distance(
                            ulat_udeg,
                            ulon_udeg,
                            loc.latitude_udeg,
                            loc.longitude_udeg,
                        );
                        entry = Some(
                            Server {
                                name: rec.name.clone(),
                                hostname: rec.hostname.clone(),
                                station: rec.station.clone(),
                                load,
                                country: loc.country.name.clone(),
                                city,
                                latitude_udeg: loc.latitude_udeg,
                                longitude_udeg: loc.longitude_udeg,
                                public_key: key,
                                distance_km: dist,
                            },
                        );
                        proof {
                            assert(spec_eligible(servers@[i as int]));
                            assert(entry->0@ == spec_entry_model(servers@[i as int], ulat, ulon));
                        }
                    }
                },
                None => {},
            }
        }
        match entry {
            Some(s) => {
                proof {
                    assert(spec_selected(servers@.take(i + 1), ulat, ulon) =~= models(
                        picked@,
                    ).push(s@));
                    assert(models(picked@.push(s)) =~= models(picked@).push(s@));
                }
                picked.push(s);
            },
            None => {
                proof {
                    assert(!spec_eligible(servers@[i as int]));
                    assert(spec_selected(servers@.take(i + 1), ulat, ulon) =~= models(picked@));
                }
                dropped = dropped + 1;
            },
        }
        i = i + 1;
    }
    proof {
        assert(servers@.take(servers@.len() as int) =~= servers@);
    }
    let ghost chosen = models(picked@);
    let mut out: Vec<Server> = Vec::new();
    let mut j: usize = 0;
    while j < picked.len()
        invariant
            j <= picked@.len(),
            chosen == models(picked@),
            models(out@) == spec_sort(chosen.take(j as int)),
            spec_sorted(models(out@)),
            out@.len() == j,
        decreases picked@.len() - j,
    {
        proof {
            assert(chosen.take(j + 1).drop_last() =~= chosen.take(j as int));
            assert(chosen.take(j + 1).last() == chosen[j as int]);
            assert(models(picked@)[j as int] == picked@[j as int]@);
        }
        let x = picked[j].duplicate();
        insert_one(&mut out, x);
        j = j + 1;
    }
    proof {
        assert(chosen.take(chosen.len() as int) =~= chosen);
        lemma_sort_preserves_all(chosen, |m: ServerModel| m.wf());
        assert(forall|k: int|
            0 <= k < models(out@).len() ==> (#[trigger] models(out@)[k]).wf());
    }
    (out, dropped)
}

} // verus!
