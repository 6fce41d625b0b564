//! Songs found elsewhere: what a search of the reference offers that the
//! catalog does not hold, each song once, and the release each first came
//! out on.
use vstd::prelude::*;

use ahash::AHashSet;

use crate::enrich::{earliest_release, earliest_release_exec};
use crate::fold::{folded_letters, folded_letters_of};
use crate::hashed::{add_pair, holds_text, no_pairs, pairs_held, texts_held};
use crate::ids::Mbid;
use crate::reference::{credit_text, RecordingMatch, RecordingRelease};

verus! {

broadcast use vstd::string::group_string_axioms;

/// The most songs found elsewhere that a search offers.
pub const FOUND_ELSEWHERE_AT_MOST: usize = 12;

/// A search the reference was asked, and how many of its songs the
/// catalog holds.
#[derive(Clone, Debug, PartialEq, Eq)]
pub struct Sung {
    pub query: String,
    pub tracks: u32,
}

/// A song found elsewhere: the recording, its title and credit, its length
/// in milliseconds, and the release it first came out on.
#[derive(Clone, Debug, PartialEq, Eq)]
pub struct Found {
    pub recording: Mbid,
    pub title: String,
    pub artist: String,
    pub length: Option<u64>,
    pub release: Option<RecordingRelease>,
}

/// The release a recording first came out on: the earliest dated one, a
/// release without a date after every dated one, the first of any tied.
pub fn first_released(releases: &[RecordingRelease]) -> (r: Option<&RecordingRelease>)
    ensures
        releases@.len() == 0 ==> r is None,
        releases@.len() > 0 ==> r == Some(&releases@[earliest_release(releases@)]),
{
    if releases.len() == 0 {
        return None;
    }
    let at = earliest_release_exec(releases);
    Some(&releases[at])
}

fn copied_text(t: &Option<String>) -> (r: Option<String>)
    ensures
        r == *t,
{
    match t {
        Some(s) => Some(s.clone()),
        None => None,
    }
}

fn copied_release(release: &RecordingRelease) -> (r: RecordingRelease)
    ensures
        r == *release,
{
    RecordingRelease {
        id: release.id.copied(),
        title: release.title.clone(),
        date: copied_text(&release.date),
        disc: release.disc,
        position: release.position,
    }
}

/// How a song is told apart from another: its title and its credit, each
/// folded to its letters.
pub open spec fn named_as(m: RecordingMatch) -> (Seq<char>, Seq<char>) {
    (folded_letters_of(m.title@), folded_letters_of(credit_text(m.credit@)))
}

/// The matches a search offers that are worth offering, in order: none the
/// catalog holds, and none named as one offered before it.
pub open spec fn offered(ms: Seq<RecordingMatch>, held: Set<Seq<char>>) -> Seq<RecordingMatch>
    decreases ms.len(),
{
    if ms.len() == 0 {
        seq![]
    } else {
        let before = offered(ms.drop_last(), held);
        let m = ms.last();
        if held.contains(m.recording@) || exists|j: int|
            0 <= j < before.len() && named_as(before[j]) == named_as(m) {
            before
        } else {
            before.push(m)
        }
    }
}

/// A match as a song found elsewhere.
pub open spec fn found_of(m: RecordingMatch) -> (Seq<char>, Seq<char>, Seq<char>, Option<u64>, Option<RecordingRelease>) {
    (
        m.recording@,
        m.title@,
        credit_text(m.credit@),
        m.length,
        if m.releases@.len() == 0 {
            None
        } else {
            Some(m.releases@[earliest_release(m.releases@)])
        },
    )
}

/// A song found elsewhere by what it holds.
pub open spec fn found_view(f: Found) -> (Seq<char>, Seq<char>, Seq<char>, Option<u64>, Option<RecordingRelease>) {
    (f.recording@, f.title@, f.artist@, f.length, f.release)
}

proof fn lemma_offered_grows(ms: Seq<RecordingMatch>, held: Set<Seq<char>>)
    ensures
        offered(ms, held).len() <= ms.len(),
    decreases ms.len(),
{
    if ms.len() > 0 {
        lemma_offered_grows(ms.drop_last(), held);
    }
}

/// The songs a search offers that the catalog does not hold, each named
/// once, at most twelve, in the order the search offered them; each with
/// its credit written out and the release it first came out on.
pub fn found_among(matches: Vec<RecordingMatch>, held: &AHashSet<String>) -> (r: Vec<Found>)
    ensures
        r@.map_values(|f: Found| found_view(f)) == offered(matches@, texts_held(*held)).take(
            if offered(matches@, texts_held(*held)).len() < FOUND_ELSEWHERE_AT_MOST {
                offered(matches@, texts_held(*held)).len() as int
            } else {
                FOUND_ELSEWHERE_AT_MOST as int
            },
        ).map_values(|m: RecordingMatch| found_of(m)),
{
    let ghost hs = texts_held(*held);
    let ghost whole = matches@;
    let n = matches.len();
    let mut seen = no_pairs();
    let mut found: Vec<Found> = Vec::new();
    let mut k: usize = 0;
    while k < n
        invariant
            n == whole.len(),
            k <= n,
            matches@ == whole,
            hs == texts_held(*held),
            found@.len() < FOUND_ELSEWHERE_AT_MOST,
            found@.map_values(|f: Found| found_view(f)) == offered(whole.subrange(0, k as int), hs).map_values(
                |m: RecordingMatch| found_of(m),
            ),
            pairs_held(seen) == offered(whole.subrange(0, k as int), hs).map_values(
                |m: RecordingMatch| named_as(m),
            ).to_set(),
        decreases n - k,
    {
        let ghost pre = whole.subrange(0, k as int);
        let ghost next = whole.subrange(0, k + 1);
        assert(next.drop_last() =~= pre);
        let ghost before = offered(pre, hs);
        let matched = &matches[k];
        assert(next.last() == *matched);
        if holds_text(held, matched.recording.as_str()) {
            assert(offered(next, hs) == before);
            k = k + 1;
            continue ;
        }
        let artist = matched.credited_as();
        let named = (folded_letters(matched.title.as_str()), folded_letters(artist.as_str()));
        let fresh = add_pair(&mut seen, named);
        proof {
            let names = before.map_values(|m: RecordingMatch| named_as(m));
            if exists|j: int| 0 <= j < before.len() && named_as(before[j]) == named_as(*matched) {
                let j = choose|j: int|
                    0 <= j < before.len() && named_as(before[j]) == named_as(*matched);
                assert(names[j] == named_as(*matched));
                assert(names.to_set().contains(named_as(*matched)));
            } else {
                if names.to_set().contains(named_as(*matched)) {
                    let j = choose|j: int| 0 <= j < names.len() && names[j] == named_as(*matched);
                    assert(named_as(before[j]) == named_as(*matched));
                }
            }
        }
        if !fresh {
            assert(offered(next, hs) == before);
            k = k + 1;
            continue ;
        }
        let release = match first_released(&matched.releases) {
            Some(r) => Some(copied_release(r)),
            None => None,
        };
        let ghost before_found = found@;
        found.push(
            Found {
                recording: matched.recording.copied(),
                title: matched.title.clone(),
                artist,
                length: matched.length,
                release,
            },
        );
        proof {
            let after = offered(next, hs);
            assert(after == before.push(*matched));
            assert(found_view(found@.last()) == found_of(*matched));
            assert(found@.map_values(|f: Found| found_view(f)) =~= before_found.map_values(
                |f: Found| found_view(f),
            ).push(found_of(*matched)));
            assert(found@.map_values(|f: Found| found_view(f)) =~= after.map_values(
                |m: RecordingMatch| found_of(m),
            ));
            let names = before.map_values(|m: RecordingMatch| named_as(m));
            assert(after.map_values(|m: RecordingMatch| named_as(m)) =~= names.push(
                named_as(*matched),
            ));
            names.lemma_push_to_set_commute(named_as(*matched));
        }
        k = k + 1;
        if found.len() == FOUND_ELSEWHERE_AT_MOST {
            proof {
                lemma_offered_prefix(whole, hs, k as int);
            }
            return found;
        }
    }
    proof {
        assert(whole.subrange(0, n as int) =~= whole);
        let all = offered(whole, hs);
        assert(all.take(all.len() as int) =~= all);
    }
    found
}

/// What a search offers from a first part of its matches is the start of
/// what it offers from them all.
proof fn lemma_offered_prefix(ms: Seq<RecordingMatch>, held: Set<Seq<char>>, k: int)
    requires
        0 <= k <= ms.len(),
    ensures
        offered(ms, held).take(offered(ms.subrange(0, k), held).len() as int) == offered(
            ms.subrange(0, k),
            held,
        ),
        offered(ms.subrange(0, k), held).len() <= offered(ms, held).len(),
    decreases ms.len() - k,
{
    if k == ms.len() {
        assert(ms.subrange(0, k) =~= ms);
        let all = offered(ms, held);
        assert(all.take(all.len() as int) =~= all);
    } else {
        lemma_offered_prefix(ms, held, k + 1);
        let a = offered(ms.subrange(0, k), held);
        let b = offered(ms.subrange(0, k + 1), held);
        assert(ms.subrange(0, k + 1).drop_last() =~= ms.subrange(0, k));
        let all = offered(ms, held);
        assert(all.take(b.len() as int) == b);
        if b.len() == a.len() {
            assert(b == a);
        } else {
            assert(b == a.push(ms[k]));
            assert(all.take(a.len() as int) =~= b.take(a.len() as int));
            assert(b.take(a.len() as int) =~= a);
        }
    }
}

} // verus!
