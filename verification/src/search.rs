//! The station search: a case-insensitive substring filter over station
//! names that keeps the station list's order.

use vstd::prelude::*;

use crate::chars::{
    contains_chars, contains_seq, lemma_contains_empty, spec_trim, spec_upper, trimmed_chars,
    upper_chars,
};
use crate::data::{Match, MatchV, Station, StationV};

verus! {

/// The processed form of a query: trimmed of surrounding whitespace, then
/// upper-cased, as station names are stored upper-case.
pub open spec fn query_key(q: Seq<char>) -> Seq<char> {
    spec_upper(spec_trim(q))
}

/// A station matches a processed query when its name contains it.
pub open spec fn station_matches(st: StationV, key: Seq<char>) -> bool {
    contains_seq(st.name, key)
}

/// The search hit a station contributes: its name and its identifier.
pub open spec fn match_of(st: StationV) -> MatchV {
    MatchV { name: st.name, id: st.id }
}

/// What a search returns: the stations that match the processed query, in
/// the station list's own order, each reduced to its name and identifier.
pub open spec fn spec_search(stations: Seq<StationV>, key: Seq<char>) -> Seq<MatchV> {
    stations.filter(|st: StationV| station_matches(st, key)).map_values(
        |st: StationV| match_of(st),
    )
}

/// Filters `stations` by the query: a station is kept exactly when its name
/// contains the upper-cased, trimmed query, and the hits keep the station
/// list's relative order, which is what `Seq::filter` produces.
pub fn search(stations: &Vec<Station>, query: &str) -> (ms: Vec<Match>)
    ensures
        ms.deep_view() == spec_search(stations.deep_view(), query_key(query@)),
{
    let trimmed = trimmed_chars(query);
    let key = upper_chars(&trimmed);
    let ghost all: Seq<StationV> = stations.deep_view();
    let mut ms: Vec<Match> = Vec::new();
    let mut i: usize = 0;
    proof {
        reveal(Seq::filter);
        assert(all.take(0) =~= Seq::<StationV>::empty());
        assert(ms.deep_view() =~= spec_search(all.take(0), key@));
    }
    while i < stations.len()
        invariant
            i <= all.len(),
            all == stations.deep_view(),
            key@ == query_key(query@),
            ms.deep_view() == spec_search(all.take(i as int), key@),
        decreases all.len() - i,
    {
        let ghost pre = ms.deep_view();
        let st = &stations[i];
        let hit = contains_chars(st.name.as_str(), &key);
        proof {
            assert(all[i as int] == st@);
            assert(hit == station_matches(all[i as int], key@));
        }
        if hit {
            ms.push(Match { name: st.name.clone(), id: st.id.clone() });
            proof {
                assert(ms.deep_view() =~= pre.push(match_of(all[i as int])));
            }
        }
        proof {
            reveal(Seq::filter);
            let p = all.take(i as int);
            let q = all.take(i as int + 1);
            assert(q.drop_last() =~= p);
            assert(q.last() == all[i as int]);
            let f = |st: StationV| station_matches(st, key@);
            if f(all[i as int]) {
                assert(q.filter(f) == p.filter(f).push(all[i as int]));
                assert(ms.deep_view() =~= q.filter(f).map_values(
                    |st: StationV| match_of(st),
                ));
            } else {
                assert(q.filter(f) == p.filter(f));
            }
        }
        i = i + 1;
    }
    proof {
        assert(all.take(all.len() as int) =~= all);
    }
    ms
}

/// Every search hit comes from a station of the list whose name contains
/// the processed query; in particular no hit is invented and none matches
/// anything but the query.  Order preservation is already part of
/// [`spec_search`]: the hits are `Seq::filter` of the list, which keeps
/// relative order by construction.
pub proof fn lemma_search_only_matching(stations: Seq<StationV>, q: Seq<char>, j: int)
    requires
        0 <= j < spec_search(stations, query_key(q)).len(),
    ensures
        contains_seq(spec_search(stations, query_key(q))[j].name, query_key(q)),
        exists|k: int|
            0 <= k < stations.len() && station_matches(#[trigger] stations[k], query_key(q))
                && spec_search(stations, query_key(q))[j] == match_of(stations[k]),
{
    lemma_search_hit_at(stations, query_key(q), j);
}

/// The `j`-th hit of a search with processed query `key` is the reduction
/// of a matching station of the list.
proof fn lemma_search_hit_at(stations: Seq<StationV>, key: Seq<char>, j: int)
    requires
        0 <= j < spec_search(stations, key).len(),
    ensures
        contains_seq(spec_search(stations, key)[j].name, key),
        exists|k: int|
            0 <= k < stations.len() && station_matches(#[trigger] stations[k], key)
                && spec_search(stations, key)[j] == match_of(stations[k]),
{
    broadcast use vstd::seq_lib::group_filter_ensures;

    let pred = |st: StationV| station_matches(st, key);
    assert(spec_search(stations, key)[j] == match_of(stations.filter(pred)[j]));
    assert(pred(stations.filter(pred)[j]));
    lemma_filter_member_source(stations, pred, j);
    let k = choose|k: int| 0 <= k < stations.len() && stations[k] == stations.filter(pred)[j];
    assert(0 <= k < stations.len() && stations[k] == stations.filter(pred)[j]);
    assert(station_matches(stations[k], key));
    assert(spec_search(stations, key)[j] == match_of(stations[k]));
}

/// Every element of a filtered sequence occurs in the source sequence.
proof fn lemma_filter_member_source(
    stations: Seq<StationV>,
    pred: spec_fn(StationV) -> bool,
    j: int,
)
    requires
        0 <= j < stations.filter(pred).len(),
    ensures
        exists|k: int| 0 <= k < stations.len() && stations[k] == stations.filter(pred)[j],
    decreases stations.len(),
{
    reveal(Seq::filter);
    if stations.len() > 0 {
        let prefix = stations.drop_last();
        if j < prefix.filter(pred).len() {
            lemma_filter_member_source(prefix, pred, j);
            let k = choose|k: int| 0 <= k < prefix.len() && prefix[k] == prefix.filter(pred)[j];
            assert(stations[k] == stations.filter(pred)[j]);
        } else {
            assert(stations[stations.len() - 1] == stations.filter(pred)[j]);
        }
    }
}

/// Filtering with a predicate that holds of every element returns the
/// sequence unchanged.
proof fn lemma_filter_all_kept(stations: Seq<StationV>, pred: spec_fn(StationV) -> bool)
    requires
        forall|k: int| 0 <= k < stations.len() ==> pred(#[trigger] stations[k]),
    ensures
        stations.filter(pred) == stations,
    decreases stations.len(),
{
    reveal(Seq::filter);
    if stations.len() > 0 {
        lemma_filter_all_kept(stations.drop_last(), pred);
        assert(pred(stations.last()));
        assert(stations.filter(pred) =~= stations);
    } else {
        assert(stations.filter(pred) =~= stations);
    }
}

/// An empty query matches every station: the search returns the whole list,
/// reduced to names and identifiers, in order.
pub proof fn lemma_search_empty_query(stations: Seq<StationV>)
    ensures
        query_key(Seq::<char>::empty()) == Seq::<char>::empty(),
        spec_search(stations, Seq::<char>::empty()) == stations.map_values(
            |st: StationV| match_of(st),
        ),
{
    assert(spec_upper(spec_trim(Seq::<char>::empty())) =~= Seq::<char>::empty());
    let pred = |st: StationV| station_matches(st, Seq::<char>::empty());
    assert forall|k: int| 0 <= k < stations.len() implies pred(#[trigger] stations[k]) by {
        lemma_contains_empty(stations[k].name);
    }
    lemma_filter_all_kept(stations, pred);
}

} // verus!
