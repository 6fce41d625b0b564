//! The hash sets and maps of `ahash` the library keeps what it has seen
//! in, each known to the proofs by what it holds.
use vstd::prelude::*;

use ahash::{AHashMap, AHashSet, RandomState};

use crate::moves::{likeness_seen, Row};
use crate::playlist::{row_view, Row as PlaylistRow};

verus! {

/// `ahash::RandomState`, the hasher the sets and maps are built with.
#[verifier::external_type_specification]
#[verifier::external_body]
pub struct ExRandomState(RandomState);

/// `ahash::AHashSet`.
#[verifier::external_type_specification]
#[verifier::external_body]
#[verifier::reject_recursive_types(T)]
#[verifier::reject_recursive_types(S)]
pub struct ExAHashSet<T, S>(AHashSet<T, S>);

/// `ahash::AHashMap`.
#[verifier::external_type_specification]
#[verifier::external_body]
#[verifier::reject_recursive_types(K)]
#[verifier::reject_recursive_types(V)]
#[verifier::reject_recursive_types(S)]
pub struct ExAHashMap<K, V, S>(AHashMap<K, V, S>);

/// The pairs of texts a set holds.
pub uninterp spec fn pairs_held(s: AHashSet<(String, String)>) -> Set<(Seq<char>, Seq<char>)>;

/// The texts a set holds.
pub uninterp spec fn texts_held(s: AHashSet<String>) -> Set<Seq<char>>;

/// A song as a key: album, artist, disc, track and title.
pub type SongKey = (String, String, u32, Option<u32>, String);

/// A song key by what it holds.
pub open spec fn song_key_view(k: SongKey) -> (Seq<char>, Seq<char>, u32, Option<u32>, Seq<char>) {
    (k.0@, k.1@, k.2, k.3, k.4@)
}

/// A map from songs to the number of the copy that first named each.
pub type FirstNamed = AHashMap<SongKey, usize>;

/// A map from numbers to lists of numbers.
pub type Lists = AHashMap<usize, Vec<usize>>;

/// A set of pairs of texts that holds none.
pub open spec fn no_pairs_held() -> Set<(Seq<char>, Seq<char>)> {
    Set::empty()
}

/// A map from songs that holds none.
pub open spec fn no_songs_held() -> Map<(Seq<char>, Seq<char>, u32, Option<u32>, Seq<char>), usize> {
    Map::empty()
}

/// A map from numbers to lists that holds none.
pub open spec fn no_lists_held() -> Map<usize, Seq<usize>> {
    Map::empty()
}

/// What a map from songs holds.
pub uninterp spec fn songs_held(m: FirstNamed) -> Map<
    (Seq<char>, Seq<char>, u32, Option<u32>, Seq<char>),
    usize,
>;

/// What a map from numbers to lists of numbers holds.
pub uninterp spec fn lists_held(m: Lists) -> Map<usize, Seq<usize>>;

/// `AHashSet::new`: a set that holds nothing.
#[verifier::external_body]
pub(crate) fn no_pairs() -> (r: AHashSet<(String, String)>)
    ensures
        pairs_held(r) == no_pairs_held(),
{
    AHashSet::new()
}

/// `HashSet::insert`, through the set's `DerefMut`: adds the pair, and
/// answers whether the set did not hold it already; a set that held it is
/// left as it was.
#[verifier::external_body]
pub(crate) fn add_pair(set: &mut AHashSet<(String, String)>, pair: (String, String)) -> (r: bool)
    ensures
        r == !pairs_held(*old(set)).contains((pair.0@, pair.1@)),
        pairs_held(*final(set)) == pairs_held(*old(set)).insert((pair.0@, pair.1@)),
{
    set.insert(pair)
}

/// `HashSet::contains`, through the set's `Deref`: whether the set holds
/// the text.
#[verifier::external_body]
pub(crate) fn holds_text(set: &AHashSet<String>, text: &str) -> (r: bool)
    ensures
        r == texts_held(*set).contains(text@),
{
    set.contains(text)
}

/// `AHashMap::new`: a map that holds nothing.
#[verifier::external_body]
pub(crate) fn no_songs() -> (r: FirstNamed)
    ensures
        songs_held(r) == no_songs_held(),
{
    AHashMap::new()
}

/// `AHashMap::get`, copied out: the number the map holds under the song,
/// where it holds one.
#[verifier::external_body]
pub(crate) fn song_at(map: &FirstNamed, key: &SongKey) -> (r: Option<usize>)
    ensures
        songs_held(*map).contains_key(song_key_view(*key)) ==> r == Some(
            songs_held(*map)[song_key_view(*key)],
        ),
        !songs_held(*map).contains_key(song_key_view(*key)) ==> r is None,
{
    map.get(key).copied()
}

/// `AHashMap::insert`: holds the number under the song, in place of any
/// it held there.
#[verifier::external_body]
pub(crate) fn put_song(map: &mut FirstNamed, key: SongKey, at: usize)
    ensures
        songs_held(*final(map)) == songs_held(*old(map)).insert(song_key_view(key), at),
{
    map.insert(key, at);
}

/// `AHashMap::new`: a map that holds nothing.
#[verifier::external_body]
pub(crate) fn no_lists() -> (r: Lists)
    ensures
        lists_held(r) == no_lists_held(),
{
    AHashMap::new()
}

/// `HashMap::remove`, through the map's `DerefMut`: takes out the list
/// held under the key, where one is.
#[verifier::external_body]
pub(crate) fn take_list(map: &mut Lists, key: usize) -> (r: Option<Vec<usize>>)
    ensures
        lists_held(*old(map)).contains_key(key) ==> (r matches Some(v) && v@ == lists_held(
            *old(map),
        )[key]),
        !lists_held(*old(map)).contains_key(key) ==> r is None,
        lists_held(*final(map)) == lists_held(*old(map)).remove(key),
{
    map.remove(&key)
}

/// `HashMap::insert`, through the map's `DerefMut`: holds the list under
/// the key, in place of any held there.
#[verifier::external_body]
pub(crate) fn put_list(map: &mut Lists, key: usize, list: Vec<usize>)
    ensures
        lists_held(*final(map)) == lists_held(*old(map)).insert(key, list@),
{
    map.insert(key, list);
}

/// Adds the number to the end of the list held under the key, an empty
/// list where none is held.
pub(crate) fn push_under(map: &mut Lists, key: usize, value: usize)
    ensures
        lists_held(*final(map)) == lists_held(*old(map)).insert(
            key,
            if lists_held(*old(map)).contains_key(key) {
                lists_held(*old(map))[key]
            } else {
                Seq::<usize>::empty()
            }.push(value),
        ),
{
    let ghost before = lists_held(*map);
    let mut list = match take_list(map, key) {
        Some(l) => l,
        None => Vec::new(),
    };
    list.push(value);
    put_list(map, key, list);
    assert(lists_held(*map) =~= before.insert(
        key,
        if before.contains_key(key) {
            before[key]
        } else {
            Seq::<usize>::empty()
        }.push(value),
    ));
}

/// `AHashMap::into_values`, collected: the lists the map holds, one for
/// each key, in an order the source leaves open.
#[verifier::external_body]
pub(crate) fn lists_of(map: Lists) -> (r: Vec<Vec<usize>>)
    ensures
        exists|keys: Seq<usize>|
            #![trigger keys.len()]
            keys.len() == r@.len() && keys.no_duplicates() && keys.to_set() == lists_held(
                map,
            ).dom() && forall|i: int|
                0 <= i < keys.len() ==> #[trigger] r@[i]@ == lists_held(map)[keys[i]],
{
    map.into_values().collect()
}


/// What a file's likeness is known by: its size, its length, its codec,
/// and the title and artist its tags name.
pub type LikenessKey = (i64, Option<i64>, i64, Option<String>, Option<String>);

/// A likeness key by what it holds.
pub open spec fn likeness_key_view(
    k: LikenessKey,
) -> (i64, Option<i64>, i64, Option<Seq<char>>, Option<Seq<char>>) {
    (
        k.0,
        k.1,
        k.2,
        match k.3 {
            Some(t) => Some(t@),
            None => None,
        },
        match k.4 {
            Some(t) => Some(t@),
            None => None,
        },
    )
}

/// A map from likenesses to the rows alike in them.
pub type RowsByLikeness = AHashMap<LikenessKey, Vec<Row>>;

/// A map from likenesses that holds none.
pub open spec fn no_likenesses_held() -> Map<
    (i64, Option<i64>, i64, Option<Seq<char>>, Option<Seq<char>>),
    Seq<Row>,
> {
    Map::empty()
}

/// What a map from likenesses holds.
pub uninterp spec fn rows_held(m: RowsByLikeness) -> Map<
    (i64, Option<i64>, i64, Option<Seq<char>>, Option<Seq<char>>),
    Seq<Row>,
>;

/// `AHashMap::new`: a map that holds nothing.
#[verifier::external_body]
pub(crate) fn no_likenesses() -> (r: RowsByLikeness)
    ensures
        rows_held(r) == no_likenesses_held(),
{
    AHashMap::new()
}

/// `HashMap::insert`, through the map's `DerefMut`: holds the rows under
/// the key, in place of any held there.
#[verifier::external_body]
pub(crate) fn put_alike(map: &mut RowsByLikeness, key: LikenessKey, rows: Vec<Row>)
    ensures
        rows_held(*final(map)) == rows_held(*old(map)).insert(likeness_key_view(key), rows@),
{
    map.insert(key, rows);
}

/// Adds the row to the end of the rows held under the key, none where none
/// are held.
pub(crate) fn push_alike(map: &mut RowsByLikeness, key: LikenessKey, row: Row)
    ensures
        rows_held(*final(map)) == rows_held(*old(map)).insert(
            likeness_key_view(key),
            if rows_held(*old(map)).contains_key(likeness_key_view(key)) {
                rows_held(*old(map))[likeness_key_view(key)]
            } else {
                Seq::<Row>::empty()
            }.push(row),
        ),
{
    let ghost before = rows_held(*map);
    let ghost k = likeness_key_view(key);
    let mut rows = match take_alike(map, &key) {
        Some(v) => v,
        None => Vec::new(),
    };
    rows.push(row);
    put_alike(map, key, rows);
    assert(rows_held(*map) =~= before.insert(
        k,
        if before.contains_key(k) {
            before[k]
        } else {
            Seq::<Row>::empty()
        }.push(row),
    ));
}

/// `AHashMap::remove`: takes out the rows held under the key, where any
/// are.
#[verifier::external_body]
pub(crate) fn take_alike(map: &mut RowsByLikeness, key: &LikenessKey) -> (r: Option<Vec<Row>>)
    ensures
        rows_held(*old(map)).contains_key(likeness_key_view(*key)) ==> (r matches Some(v) && v@
            == rows_held(*old(map))[likeness_key_view(*key)]),
        !rows_held(*old(map)).contains_key(likeness_key_view(*key)) ==> r is None,
        rows_held(*final(map)) == rows_held(*old(map)).remove(likeness_key_view(*key)),
{
    map.remove(key)
}

/// `AHashMap::into_iter`, collected: each likeness the map holds with its
/// rows, in an order the source leaves open.
#[verifier::external_body]
pub(crate) fn likenesses_of(map: RowsByLikeness) -> (r: Vec<(LikenessKey, Vec<Row>)>)
    ensures
        exists|keys: Seq<(i64, Option<i64>, i64, Option<Seq<char>>, Option<Seq<char>>)>|
            #![trigger keys.len()]
            keys.len() == r@.len() && keys.no_duplicates() && keys.to_set() == rows_held(
                map,
            ).dom() && forall|i: int|
                0 <= i < keys.len() ==> likeness_key_view(#[trigger] r@[i].0) == keys[i]
                    && r@[i].1@ == rows_held(map)[keys[i]],
{
    map.into_iter().collect()
}


/// A set of seeks, each held as its kind and its number.
pub type SeekSet = AHashSet<(u8, u64)>;

/// A set of seeks that holds none.
pub open spec fn no_seeks_held() -> Set<(u8, u64)> {
    Set::empty()
}

/// What a set of seeks holds.
pub uninterp spec fn seeks_held(s: SeekSet) -> Set<(u8, u64)>;

/// `AHashSet::new`: a set that holds nothing.
#[verifier::external_body]
pub(crate) fn no_seeks() -> (r: SeekSet)
    ensures
        seeks_held(r) == no_seeks_held(),
{
    AHashSet::new()
}

/// `HashSet::insert`, through the set's `DerefMut`: holds the key.
#[verifier::external_body]
pub(crate) fn hold_seek(set: &mut SeekSet, key: (u8, u64))
    ensures
        seeks_held(*final(set)) == seeks_held(*old(set)).insert(key),
{
    set.insert(key);
}

/// `HashSet::contains`, through the set's `Deref`: whether the set holds
/// the key.
#[verifier::external_body]
pub(crate) fn holds_seek(set: &SeekSet, key: (u8, u64)) -> (r: bool)
    ensures
        r == seeks_held(*set).contains(key),
{
    set.contains(&key)
}

/// A set of a playlist's rows.
pub type PlaylistRows = AHashSet<PlaylistRow>;

/// A set of rows that holds none.
pub open spec fn no_playlist_rows_held() -> Set<(Seq<char>, i64, Option<i64>)> {
    Set::empty()
}

/// The rows a set holds, each by what it holds.
pub uninterp spec fn playlist_rows_held(s: PlaylistRows) -> Set<(Seq<char>, i64, Option<i64>)>;

/// `AHashSet::new`: a set that holds nothing.
#[verifier::external_body]
pub(crate) fn no_playlist_rows() -> (r: PlaylistRows)
    ensures
        playlist_rows_held(r) == no_playlist_rows_held(),
{
    AHashSet::new()
}

/// `HashSet::insert`, through the set's `DerefMut`: holds the row, and
/// answers whether no row equal to it was held. Rows are equal where
/// their paths, starts and lengths are.
#[verifier::external_body]
pub(crate) fn first_sight(set: &mut PlaylistRows, row: &PlaylistRow) -> (r: bool)
    ensures
        r == !playlist_rows_held(*old(set)).contains(row_view(*row)),
        playlist_rows_held(*final(set)) == playlist_rows_held(*old(set)).insert(row_view(*row)),
{
    set.insert(row.clone())
}

/// A count of a playlist's rows, each by what it holds.
pub type RowCounts = AHashMap<PlaylistRow, usize>;

/// The counts a map holds, each under the row it counts.
pub uninterp spec fn row_counts(m: RowCounts) -> Map<(Seq<char>, i64, Option<i64>), usize>;

/// How many of a row a count holds: none where it holds no entry.
pub open spec fn count_in(m: Map<(Seq<char>, i64, Option<i64>), usize>, v: (Seq<char>, i64, Option<i64>)) -> nat {
    if m.contains_key(v) {
        m[v] as nat
    } else {
        0
    }
}

/// A count that holds nothing.
pub open spec fn no_counts_held() -> Map<(Seq<char>, i64, Option<i64>), usize> {
    Map::empty()
}

/// `AHashMap::new`: a count that holds nothing.
#[verifier::external_body]
pub(crate) fn no_row_counts() -> (r: RowCounts)
    ensures
        row_counts(r) == no_counts_held(),
{
    AHashMap::new()
}

/// `HashMap::get`, through the map's `Deref`, copied out: the count held
/// under the row, where one is.
#[verifier::external_body]
pub(crate) fn row_count_at(m: &RowCounts, row: &PlaylistRow) -> (r: Option<usize>)
    ensures
        row_counts(*m).contains_key(row_view(*row)) ==> r == Some(row_counts(*m)[row_view(*row)]),
        !row_counts(*m).contains_key(row_view(*row)) ==> r is None,
{
    m.get(row).copied()
}

/// `HashMap::insert`, through the map's `DerefMut`, of a copy of the row:
/// holds the count under the row, in place of any held there.
#[verifier::external_body]
pub(crate) fn set_row_count(m: &mut RowCounts, row: &PlaylistRow, count: usize)
    ensures
        row_counts(*final(m)) == row_counts(*old(m)).insert(row_view(*row), count),
{
    m.insert(row.clone(), count);
}

} // verus!
