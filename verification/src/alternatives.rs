//! Copies of one song: which files are the same song, and which copy of
//! each the others are held under.
use vstd::prelude::*;

use crate::hashed::{
    lists_held, lists_of, no_lists, no_songs, push_under, put_song, song_at, song_key_view,
    songs_held, SongKey,
};

verus! {

/// Copies gathered into songs: each copy under another that gathers it,
/// or under itself where it heads its gathering. A copy is only ever under
/// one that comes before it, or itself.
pub struct Gathering {
    under: Vec<usize>,
}

/// Whether every copy is under itself or one that comes before it.
pub open spec fn downward(under: Seq<usize>) -> bool {
    forall|i: int| 0 <= i < under.len() ==> #[trigger] under[i] <= i
}

/// The copy that heads the gathering a copy is in: the one reached by
/// following each copy to the one it is under, until one is under itself.
pub open spec fn head(under: Seq<usize>, i: int) -> int
    decreases i,
{
    if i < 0 || i >= under.len() || under[i] >= i {
        i
    } else {
        head(under, under[i] as int)
    }
}

proof fn lemma_head_bounds(under: Seq<usize>, i: int)
    requires
        downward(under),
        0 <= i < under.len(),
    ensures
        0 <= head(under, i) <= i,
        under[head(under, i)] == head(under, i),
    decreases i,
{
    if under[i] < i {
        lemma_head_bounds(under, under[i] as int);
    }
}

/// Setting a copy under the one its own leads to, two steps up, keeps
/// every gathering as it was.
proof fn lemma_halved(under: Seq<usize>, at: int, j: int)
    requires
        downward(under),
        0 <= at < under.len(),
        0 <= j < under.len(),
    ensures
        downward(under.update(at, under[under[at] as int])),
        head(under.update(at, under[under[at] as int]), j) == head(under, j),
    decreases j,
{
    let halved = under.update(at, under[under[at] as int]);
    assert(under[under[at] as int] <= under[at] <= at);
    assert(downward(halved)) by {
        assert forall|i: int| 0 <= i < halved.len() implies #[trigger] halved[i] <= i by {
            if i == at {
            } else {
                assert(halved[i] == under[i]);
            }
        }
    }
    if under[j] >= j {
        if j == at {
            assert(under[at] == at);
            assert(halved[j] == under[j]);
        }
    } else if j == at {
        let p = under[at] as int;
        lemma_halved(under, at, halved[j] as int);
        if under[p] < p {
            lemma_halved(under, at, p);
        }
        assert(head(under, j) == head(under, p));
        assert(head(halved, j) == head(halved, halved[j] as int));
        assert(head(under, p) == head(under, under[p] as int) || under[p] >= p);
    } else {
        lemma_halved(under, at, under[j] as int);
        assert(halved[j] == under[j]);
    }
}

impl Gathering {
    /// What each copy is under.
    pub closed spec fn under(self) -> Seq<usize> {
        self.under@
    }

    /// Whether the gathering is one a join could have left: every copy
    /// under itself or one before it.
    pub closed spec fn well_formed(self) -> bool {
        downward(self.under@)
    }

    /// The copy that heads the gathering copy `i` is in.
    pub closed spec fn head_of(self, i: int) -> int {
        head(self.under@, i)
    }

    /// `count` copies, each in a gathering of its own.
    pub fn of(count: usize) -> (r: Gathering)
        ensures
            r.well_formed(),
            r.under().len() == count,
            forall|i: int| 0 <= i < count ==> #[trigger] r.head_of(i) == i,
    {
        let mut under: Vec<usize> = Vec::new();
        let mut k: usize = 0;
        while k < count
            invariant
                k <= count,
                under@.len() == k,
                forall|i: int| 0 <= i < k ==> #[trigger] under@[i] == i,
            decreases count - k,
        {
            under.push(k);
            k = k + 1;
        }
        let r = Gathering { under };
        assert forall|i: int| 0 <= i < count implies #[trigger] r.head_of(i) == i by {
            assert(under@[i] == i);
        }
        r
    }

    /// The copy that heads the gathering `index` is in; a copy the
    /// gathering does not hold heads itself. Each copy on the way is set
    /// under the one two steps up, which leaves every gathering as it was.
    pub fn root(&mut self, index: usize) -> (r: usize)
        requires
            old(self).well_formed(),
        ensures
            final(self).well_formed(),
            final(self).under().len() == old(self).under().len(),
            forall|j: int| 0 <= j < old(self).under().len() ==> #[trigger] final(self).head_of(j)
                == old(self).head_of(j),
            r == old(self).head_of(index as int),
            index < old(self).under().len() ==> r <= index,
    {
        let ghost start = self.under@;
        let mut at = index;
        let n = self.under.len();
        proof {
            if index < n {
                lemma_head_bounds(start, index as int);
            }
        }
        while at < self.under.len() && self.under[at] != at
            invariant
                n == self.under@.len(),
                downward(self.under@),
                forall|j: int| 0 <= j < n ==> #[trigger] head(self.under@, j) == head(start, j),
                at <= index,
                at < n ==> head(start, at as int) == head(start, index as int),
                index >= n ==> at == index,
            decreases at,
        {
            let above = self.under[at];
            let grand = self.under[above];
            let ghost before = self.under@;
            proof {
                assert(above < at);
                assert(head(before, at as int) == head(before, above as int));
                assert(head(start, at as int) == head(start, above as int));
                assert forall|j: int| 0 <= j < n implies #[trigger] head(
                    before.update(at as int, before[above as int]),
                    j,
                ) == head(start, j) by {
                    lemma_halved(before, at as int, j);
                }
                lemma_halved(before, at as int, at as int);
            }
            self.under.set(at, grand);
            at = above;
        }
        proof {
            if at < n {
                assert(head(self.under@, at as int) == at);
            }
        }
        at
    }

    /// Joins the gatherings two copies are in: the later head is set under
    /// the earlier.
    pub fn join(&mut self, one: usize, other: usize)
        requires
            old(self).well_formed(),
            one < old(self).under().len(),
            other < old(self).under().len(),
        ensures
            final(self).well_formed(),
            final(self).under().len() == old(self).under().len(),
            final(self).head_of(one as int) == final(self).head_of(other as int),
            forall|j: int|
                0 <= j < old(self).under().len() ==> #[trigger] final(self).head_of(j) == if old(
                    self,
                ).head_of(j) == old(self).head_of(one as int) || old(self).head_of(j) == old(
                    self,
                ).head_of(other as int) {
                    if old(self).head_of(one as int) <= old(self).head_of(other as int) {
                        old(self).head_of(one as int)
                    } else {
                        old(self).head_of(other as int)
                    }
                } else {
                    old(self).head_of(j)
                },
    {
        let ghost start = self.under@;
        let ghost s0 = *self;
        let ghost first = one;
        let ghost second = other;
        let one = self.root(one);
        let ghost s1 = *self;
        let other = self.root(other);
        proof {
            assert(self.head_of(first as int) == s1.head_of(first as int));
            assert(s1.head_of(first as int) == one as int);
        }
        let low = if one <= other {
            one
        } else {
            other
        };
        let high = if one <= other {
            other
        } else {
            one
        };
        let ghost mid = self.under@;
        proof {
            lemma_head_bounds(mid, first as int);
            lemma_head_bounds(mid, second as int);
            assert(head(mid, first as int) == one as int);
            assert(self.head_of(second as int) == s1.head_of(second as int));
            assert(s1.head_of(second as int) == other as int);
            assert(head(mid, second as int) == other as int);
            assert forall|j: int| 0 <= j < mid.len() implies #[trigger] head(mid, j) == head(start, j) by {
                assert(self.head_of(j) == s1.head_of(j));
                assert(s1.head_of(j) == s0.head_of(j));
            }
            assert(mid[high as int] == high);
            assert(mid[low as int] == low);
        }
        self.under.set(high, low);
        proof {
            lemma_rehead(mid, high as int, low as int);
        }
    }
}

/// Setting a head under an earlier head moves every copy it headed under
/// the earlier one, and leaves the rest as they were.
proof fn lemma_rehead(under: Seq<usize>, high: int, low: int)
    requires
        downward(under),
        0 <= low <= high < under.len(),
        under[high] == high,
        under[low] == low,
    ensures
        downward(under.update(high, low as usize)),
        forall|j: int|
            0 <= j < under.len() ==> #[trigger] head(under.update(high, low as usize), j) == if head(
                under,
                j,
            ) == high {
                low
            } else {
                head(under, j)
            },
{
    let moved = under.update(high, low as usize);
    assert(downward(moved)) by {
        assert forall|i: int| 0 <= i < moved.len() implies #[trigger] moved[i] <= i by {
            if i != high {
                assert(moved[i] == under[i]);
            }
        }
    }
    assert forall|j: int| 0 <= j < under.len() implies #[trigger] head(moved, j) == if head(
        under,
        j,
    ) == high {
        low
    } else {
        head(under, j)
    } by {
        lemma_rehead_at(under, high, low, j);
    }
}

proof fn lemma_rehead_at(under: Seq<usize>, high: int, low: int, j: int)
    requires
        downward(under),
        0 <= low <= high < under.len(),
        under[high] == high,
        under[low] == low,
        0 <= j < under.len(),
    ensures
        head(under.update(high, low as usize), j) == if head(under, j) == high {
            low
        } else {
            head(under, j)
        },
    decreases j,
{
    let moved = under.update(high, low as usize);
    if j == high {
        if low < high {
            assert(moved[low] == low);
            assert(head(moved, low) == low);
        }
    } else if under[j] >= j {
        assert(moved[j] == under[j]);
    } else {
        assert(moved[j] == under[j]);
        lemma_rehead_at(under, high, low, under[j] as int);
    }
}


/// What a copy of a song is known by, its words folded.
#[derive(Clone, Debug, PartialEq, Eq, Hash)]
pub struct Song {
    pub album: String,
    pub artist: String,
    pub disc: u32,
    pub track: Option<u32>,
    pub title: String,
}

/// A song by what it holds.
pub open spec fn song_view(s: Song) -> (Seq<char>, Seq<char>, u32, Option<u32>, Seq<char>) {
    (s.album@, s.artist@, s.disc, s.track, s.title@)
}

impl Song {
    /// Whether the song is named well enough to meet another: it has a
    /// title and an artist.
    pub fn is_named_well_enough_to_meet(&self) -> (r: bool)
        ensures
            r == (self.title@.len() > 0 && self.artist@.len() > 0),
    {
        !self.title.as_str().is_empty() && !self.artist.as_str().is_empty()
    }

    /// Another copy of the song, with another album.
    fn on(&self, album: String) -> (r: Song)
        ensures
            song_view(r) == (album@, self.artist@, self.disc, self.track, self.title@),
    {
        Song {
            album,
            artist: self.artist.clone(),
            disc: self.disc,
            track: self.track,
            title: self.title.clone(),
        }
    }
}

/// How good a copy is: lossless first, then its bit depth, its sample rate
/// and its bit rate.
#[derive(Clone, Copy, Debug, PartialEq, Eq, Structural, PartialOrd, Ord)]
pub struct Quality {
    pub lossless: bool,
    pub bits: u8,
    pub rate: i64,
    pub bitrate: u64,
}

/// Whether one quality is below another, read in that order.
pub open spec fn quality_below(a: Quality, b: Quality) -> bool {
    ||| (!a.lossless && b.lossless)
    ||| (a.lossless == b.lossless && a.bits < b.bits)
    ||| (a.lossless == b.lossless && a.bits == b.bits && a.rate < b.rate)
    ||| (a.lossless == b.lossless && a.bits == b.bits && a.rate == b.rate && a.bitrate
        < b.bitrate)
}

fn quality_is_below(a: Quality, b: Quality) -> (r: bool)
    ensures
        r == quality_below(a, b),
{
    (!a.lossless && b.lossless) || (a.lossless == b.lossless && a.bits < b.bits) || (a.lossless
        == b.lossless && a.bits == b.bits && a.rate < b.rate) || (a.lossless == b.lossless
        && a.bits == b.bits && a.rate == b.rate && a.bitrate < b.bitrate)
}

/// A copy the catalog holds: its row, the song it is, the album its tags
/// name, its length in nanoseconds, its quality, and the copy it is held
/// under, if any.
#[derive(Clone, Debug, PartialEq, Eq)]
pub struct Held {
    pub id: i64,
    pub song: Song,
    pub tagged_album: Option<String>,
    pub length: Option<u64>,
    pub quality: Quality,
    pub held_under: Option<i64>,
}

/// The songs a copy may be: the song its row names, and the one its tags
/// name where they name another album; each only where it is named well
/// enough to meet another.
pub open spec fn songs_of(h: Held) -> Seq<(Seq<char>, Seq<char>, u32, Option<u32>, Seq<char>)> {
    let own = song_view(h.song);
    let named = |s: (Seq<char>, Seq<char>, u32, Option<u32>, Seq<char>)| s.4.len() > 0 && s.1.len()
        > 0;
    (if named(own) {
        seq![own]
    } else {
        seq![]
    }) + match h.tagged_album {
        Some(a) => if a@ != h.song.album@ && named((a@, own.1, own.2, own.3, own.4)) {
            seq![(a@, own.1, own.2, own.3, own.4)]
        } else {
            seq![]
        },
        None => seq![],
    }
}

impl Held {
    /// The songs the copy may be: the one its row names, and the one its
    /// tags name where they name another album; each only where it is
    /// named well enough to meet another.
    pub fn songs(&self) -> (r: Vec<Song>)
        ensures
            r@.map_values(|s: Song| song_view(s)) == songs_of(*self),
    {
        let mut r: Vec<Song> = Vec::new();
        let own = self.song.on(self.song.album.clone());
        if own.is_named_well_enough_to_meet() {
            r.push(own);
        }
        let ghost first = r@.map_values(|s: Song| song_view(s));
        if let Some(album) = &self.tagged_album {
            if *album != self.song.album {
                let tagged = self.song.on(album.clone());
                if tagged.is_named_well_enough_to_meet() {
                    r.push(tagged);
                }
            }
        }
        assert(r@.map_values(|s: Song| song_view(s)) =~= songs_of(*self));
        r
    }
}

/// Whether one copy is a worse pick than another: lower in quality, or as
/// good and a later row.
pub open spec fn worse(a: Held, b: Held) -> bool {
    quality_below(a.quality, b.quality) || (a.quality == b.quality && a.id > b.id)
}

/// Where the best pick of a run of copies stands: the highest quality,
/// the earliest row of those, and the last of any still tied.
pub open spec fn best_at(run: Seq<Held>) -> int
    decreases run.len(),
{
    if run.len() <= 1 {
        0
    } else {
        let b = best_at(run.drop_last());
        if worse(run.last(), run[b]) {
            b
        } else {
            run.len() - 1
        }
    }
}

proof fn lemma_best_at_bounds(run: Seq<Held>)
    ensures
        run.len() > 0 ==> 0 <= best_at(run) < run.len(),
    decreases run.len(),
{
    if run.len() > 1 {
        lemma_best_at_bounds(run.drop_last());
    }
}

/// The copy a copy of a run is held under: the run's best pick, unless it
/// is that pick.
pub open spec fn crown(run: Seq<Held>, k: int) -> Option<i64> {
    if run.len() == 0 {
        None
    } else if run[k].id != run[best_at(run)].id {
        Some(run[best_at(run)].id)
    } else {
        None
    }
}

/// Each copy of a run, with the copy it is held under: the run's best
/// pick, unless it is that pick.
pub fn crowned(run: Vec<Held>) -> (r: Vec<(Held, Option<i64>)>)
    ensures
        r@.len() == run@.len(),
        forall|k: int| 0 <= k < run@.len() ==> #[trigger] r@[k] == (run@[k], crown(run@, k)),
{
    let n = run.len();
    let ghost whole = run@;
    let mut best: Option<i64> = None;
    if n > 0 {
        let mut b: usize = 0;
        let mut i: usize = 1;
        while i < n
            invariant
                n == run@.len(),
                1 <= i <= n,
                b < i,
                b as int == best_at(run@.subrange(0, i as int)),
            decreases n - i,
        {
            proof {
                let pre = run@.subrange(0, i + 1);
                assert(pre.drop_last() =~= run@.subrange(0, i as int));
                assert(pre[b as int] == run@[b as int]);
            }
            if !(quality_is_below(run[i].quality, run[b].quality) || (run[i].quality == run[b].quality
                && run[i].id > run[b].id)) {
                b = i;
            }
            i = i + 1;
        }
        assert(run@.subrange(0, n as int) =~= run@);
        best = Some(run[b].id);
    }
    let mut r: Vec<(Held, Option<i64>)> = Vec::new();
    let mut rest = run;
    let mut k: usize = 0;
    proof {
        lemma_best_at_bounds(whole);
        assert(rest@ =~= whole.subrange(0, n as int));
    }
    while rest.len() > 0
        invariant
            k + rest@.len() == n,
            whole.len() == n,
            rest@ == whole.subrange(k as int, n as int),
            r@.len() == k,
            n > 0 ==> 0 <= best_at(whole) < n,
            n > 0 ==> best == Some(whole[best_at(whole)].id),
            n == 0 ==> best is None,
            forall|j: int| 0 <= j < k ==> #[trigger] r@[j] == (whole[j], crown(whole, j)),
        decreases rest@.len(),
    {
        let copy = rest.remove(0);
        let under = match best {
            Some(id) => if id != copy.id {
                Some(id)
            } else {
                None
            },
            None => None,
        };
        assert(copy == whole[k as int]);
        r.push((copy, under));
        k = k + 1;
        assert(rest@ =~= whole.subrange(k as int, n as int));
    }
    r
}


/// Whether one quality ranks above another: lossless above lossy, then,
/// lossless alike, the greater bit depth, then the greater sample rate,
/// then the greater bit rate.
pub open spec fn ranks_above(a: Quality, b: Quality) -> bool {
    if a.lossless != b.lossless {
        a.lossless
    } else if a.bits != b.bits {
        a.bits > b.bits
    } else if a.rate != b.rate {
        a.rate > b.rate
    } else {
        a.bitrate > b.bitrate
    }
}

/// The best pick of a run of copies is of the highest quality: no copy of
/// the run ranks above it, and of the copies as good as it, none has an
/// earlier row.
pub proof fn the_best_pick_ranks_highest(run: Seq<Held>)
    requires
        run.len() > 0,
    ensures
        0 <= best_at(run) < run.len(),
        forall|k: int|
            0 <= k < run.len() ==> !ranks_above(#[trigger] run[k].quality, run[best_at(run)].quality),
        forall|k: int|
            0 <= k < run.len() && #[trigger] run[k].quality == run[best_at(run)].quality ==> run[best_at(
                run,
            )].id <= run[k].id,
    decreases run.len(),
{
    lemma_best_at_bounds(run);
    if run.len() > 1 {
        let init = run.drop_last();
        the_best_pick_ranks_highest(init);
        let p = best_at(init);
        let b = best_at(run);
        assert(run[p] == init[p]);
        assert forall|k: int| 0 <= k < run.len() implies !ranks_above(
            #[trigger] run[k].quality,
            run[b].quality,
        ) && (run[k].quality == run[b].quality ==> run[b].id <= run[k].id) by {
            if k < run.len() - 1 {
                assert(run[k] == init[k]);
                assert(!ranks_above(init[k].quality, init[p].quality));
                assert(init[k].quality == init[p].quality ==> init[p].id <= init[k].id);
            }
        }
    }
}

/// Whether one length is no longer than another, an unknown length first.
pub open spec fn length_le(a: Option<u64>, b: Option<u64>) -> bool {
    match (a, b) {
        (None, _) => true,
        (Some(_), None) => false,
        (Some(x), Some(y)) => x <= y,
    }
}

fn length_is_le(a: Option<u64>, b: Option<u64>) -> (r: bool)
    ensures
        r == length_le(a, b),
{
    match (a, b) {
        (None, _) => true,
        (Some(_), None) => false,
        (Some(x), Some(y)) => x <= y,
    }
}

/// Where a copy goes among copies kept in order of length: after every
/// copy no longer than it, counting from the end.
pub open spec fn insert_pos(s: Seq<Held>, h: Held) -> int
    decreases s.len(),
{
    if s.len() == 0 {
        0
    } else if length_le(s.last().length, h.length) {
        s.len() as int
    } else {
        insert_pos(s.drop_last(), h)
    }
}

/// Copies in order of length, an unknown length first, copies of one
/// length kept in the order they came.
pub open spec fn by_length(s: Seq<Held>) -> Seq<Held>
    decreases s.len(),
{
    if s.len() == 0 {
        s
    } else {
        let t = by_length(s.drop_last());
        t.insert(insert_pos(t, s.last()), s.last())
    }
}

proof fn lemma_insert_pos_bounds(s: Seq<Held>, h: Held)
    ensures
        0 <= insert_pos(s, h) <= s.len(),
    decreases s.len(),
{
    if s.len() > 0 && !length_le(s.last().length, h.length) {
        lemma_insert_pos_bounds(s.drop_last(), h);
    }
}

proof fn lemma_by_length_len(s: Seq<Held>)
    ensures
        by_length(s).len() == s.len(),
    decreases s.len(),
{
    if s.len() > 0 {
        lemma_by_length_len(s.drop_last());
        lemma_insert_pos_bounds(by_length(s.drop_last()), s.last());
    }
}

/// Copies in order of length, an unknown length first, copies of one
/// length kept in the order they came.
fn sort_by_length(copies: Vec<Held>) -> (r: Vec<Held>)
    ensures
        r@ == by_length(copies@),
{
    let ghost whole = copies@;
    let n = copies.len();
    let mut rest = copies;
    let mut sorted: Vec<Held> = Vec::new();
    let mut k: usize = 0;
    assert(rest@ =~= whole.subrange(0, n as int));
    while rest.len() > 0
        invariant
            k + rest@.len() == n,
            whole.len() == n,
            rest@ == whole.subrange(k as int, n as int),
            sorted@ == by_length(whole.subrange(0, k as int)),
        decreases rest@.len(),
    {
        let copy = rest.remove(0);
        assert(copy == whole[k as int]);
        let mut pos = sorted.len();
        let ghost t = sorted@;
        assert(t.subrange(0, t.len() as int) =~= t);
        while pos > 0 && !length_is_le(sorted[pos - 1].length, copy.length)
            invariant
                pos <= t.len(),
                sorted@ == t,
                insert_pos(t, copy) == insert_pos(t.subrange(0, pos as int), copy),
            decreases pos,
        {
            assert(t.subrange(0, pos as int).drop_last() =~= t.subrange(0, pos - 1));
            pos = pos - 1;
        }
        proof {
            if pos > 0 {
                assert(t.subrange(0, pos as int).last() == t[pos - 1]);
            }
            lemma_insert_pos_bounds(t, copy);
            assert(whole.subrange(0, k + 1).drop_last() =~= whole.subrange(0, k as int));
            assert(whole.subrange(0, k + 1).last() == copy);
        }
        sorted.insert(pos, copy);
        k = k + 1;
        assert(rest@ =~= whole.subrange(k as int, n as int));
    }
    assert(whole.subrange(0, n as int) =~= whole);
    sorted
}

/// Whether a copy is as long as the first of a run, or near enough: both
/// lengths unknown, or the copy no more than two seconds longer.
pub open spec fn joins(first: Option<u64>, length: Option<u64>) -> bool {
    match (first, length) {
        (Some(f), Some(l)) => (if l >= f {
            l - f
        } else {
            0
        }) <= 2_000_000_000,
        (None, None) => true,
        _ => false,
    }
}

fn joins_exec(first: Option<u64>, length: Option<u64>) -> (r: bool)
    ensures
        r == joins(first, length),
{
    match (first, length) {
        (Some(f), Some(l)) => l.saturating_sub(f) <= 2_000_000_000,
        (None, None) => true,
        _ => false,
    }
}

/// Copies in order of length, in runs: each run its first copy and the
/// copies after it that join it.
pub open spec fn runs(s: Seq<Held>) -> Seq<Seq<Held>>
    decreases s.len(),
{
    if s.len() == 0 {
        seq![]
    } else {
        let rs = runs(s.drop_last());
        if rs.len() > 0 && rs.last().len() > 0 && joins(rs.last()[0].length, s.last().length) {
            rs.update(rs.len() - 1, rs.last().push(s.last()))
        } else {
            rs.push(seq![s.last()])
        }
    }
}

/// Each copy of a run, with the copy it is held under.
pub open spec fn crown_run(run: Seq<Held>) -> Seq<(Held, Option<i64>)> {
    Seq::new(run.len(), |k: int| (run[k], crown(run, k)))
}

/// Each copy of each run, with the copy it is held under, run after run.
pub open spec fn crown_runs(rs: Seq<Seq<Held>>) -> Seq<(Held, Option<i64>)>
    decreases rs.len(),
{
    if rs.len() == 0 {
        seq![]
    } else {
        crown_runs(rs.drop_last()) + crown_run(rs.last())
    }
}

/// Each copy of a song with the copy it is held under: the copies taken in
/// order of length, in runs of copies as long as the first of the run, or
/// near enough; each run's best pick heads it.
pub fn held_under_the_best(copies: Vec<Held>) -> (r: Vec<(Held, Option<i64>)>)
    ensures
        r@ == crown_runs(runs(by_length(copies@))),
{
    let sorted = sort_by_length(copies);
    let ghost whole = sorted@;
    let n = sorted.len();
    let mut rest = sorted;
    let mut settled: Vec<(Held, Option<i64>)> = Vec::new();
    let mut run: Vec<Held> = Vec::new();
    let mut k: usize = 0;
    assert(rest@ =~= whole.subrange(0, n as int));
    while rest.len() > 0
        invariant
            k + rest@.len() == n,
            whole.len() == n,
            rest@ == whole.subrange(k as int, n as int),
            k == 0 ==> run@.len() == 0 && settled@.len() == 0,
            k > 0 ==> runs(whole.subrange(0, k as int)).len() > 0 && run@ == runs(
                whole.subrange(0, k as int),
            ).last() && settled@ == crown_runs(runs(whole.subrange(0, k as int)).drop_last()),
            k > 0 ==> run@.len() > 0,
        decreases rest@.len(),
    {
        let copy = rest.remove(0);
        assert(copy == whole[k as int]);
        let ghost pre = whole.subrange(0, k as int);
        let ghost next = whole.subrange(0, k + 1);
        assert(next.drop_last() =~= pre);
        assert(next.last() == copy);
        let joined = run.len() > 0 && joins_exec(run[0].length, copy.length);
        if !joined {
            let ghost before = settled@;
            let ghost finished = run@;
            let mut taken: Vec<Held> = Vec::new();
            std::mem::swap(&mut taken, &mut run);
            let mut crowns = crowned(taken);
            assert(crowns@ =~= crown_run(finished));
            settled.append(&mut crowns);
            proof {
                let rs = runs(next);
                if k > 0 {
                    assert(rs == runs(pre).push(seq![copy]));
                    assert(rs.drop_last() == runs(pre));
                    assert(runs(pre) =~= runs(pre).drop_last().push(finished));
                    assert(crown_runs(runs(pre)) == crown_runs(runs(pre).drop_last()) + crown_run(
                        finished,
                    ));
                } else {
                    assert(pre =~= Seq::<Held>::empty());
                    assert(rs == seq![seq![copy]]);
                    assert(rs.drop_last() =~= Seq::<Seq<Held>>::empty());
                    assert(crown_run(finished) =~= Seq::<(Held, Option<i64>)>::empty());
                }
            }
            run.push(copy);
            proof {
                assert(run@ =~= seq![copy]);
            }
        } else {
            let ghost before = run@;
            run.push(copy);
            proof {
                let rs = runs(next);
                assert(rs == runs(pre).update(runs(pre).len() - 1, before.push(copy)));
                assert(rs.drop_last() =~= runs(pre).drop_last());
            }
        }
        k = k + 1;
        assert(rest@ =~= whole.subrange(k as int, n as int));
    }
    let ghost before = settled@;
    let ghost last = run@;
    let mut crowns = crowned(run);
    assert(crowns@ =~= crown_run(last));
    settled.append(&mut crowns);
    proof {
        assert(whole.subrange(0, n as int) =~= whole);
        if n > 0 {
            let rs = runs(whole);
            assert(rs =~= rs.drop_last().push(last));
        } else {
            assert(crown_run(last) =~= Seq::<(Held, Option<i64>)>::empty());
            assert(whole =~= Seq::<Held>::empty());
        }
        lemma_by_length_len(whole);
    }
    settled
}


/// A song as the proofs see it: album, artist, disc, track and title.
pub type SongSeen = (Seq<char>, Seq<char>, u32, Option<u32>, Seq<char>);

fn key_of(song: &Song) -> (r: SongKey)
    ensures
        song_key_view(r) == song_view(*song),
{
    (song.album.clone(), song.artist.clone(), song.disc, song.track, song.title.clone())
}

fn copy_of_song(song: &Song) -> (r: Song)
    ensures
        r == *song,
{
    Song {
        album: song.album.clone(),
        artist: song.artist.clone(),
        disc: song.disc,
        track: song.track,
        title: song.title.clone(),
    }
}

/// A copy of the record of a copy, field for field.
fn copy_of(held: &Held) -> (r: Held)
    ensures
        r == *held,
{
    let tagged_album = match &held.tagged_album {
        Some(album) => Some(album.clone()),
        None => None,
    };
    Held {
        id: held.id,
        song: copy_of_song(&held.song),
        tagged_album,
        length: held.length,
        quality: held.quality,
        held_under: held.held_under,
    }
}

/// Whether two copies may be one song: some song each may be is the same.
pub open spec fn shares(copies: Seq<Held>, a: int, b: int) -> bool {
    exists|s: (Seq<char>, Seq<char>, u32, Option<u32>, Seq<char>)|
        #![trigger songs_of(copies[a]).contains(s), songs_of(copies[b]).contains(s)]
        songs_of(copies[a]).contains(s) && songs_of(copies[b]).contains(s)
}

/// Whether a chain of copies runs from each to the next that may be the
/// same song.
pub open spec fn chain_of_songs(copies: Seq<Held>, p: Seq<int>) -> bool {
    &&& p.len() > 0
    &&& forall|k: int| 0 <= k < p.len() ==> 0 <= #[trigger] p[k] < copies.len()
    &&& forall|k: int| 0 <= k < p.len() - 1 ==> shares(copies, #[trigger] p[k], p[k + 1])
}

/// Whether two copies are one song: a chain of copies, each of which may
/// be the same song as the next, runs from one to the other.
pub open spec fn one_song(copies: Seq<Held>, a: int, b: int) -> bool {
    exists|p: Seq<int>| #[trigger] chain_of_songs(copies, p) && p[0] == a && p.last() == b
}

proof fn lemma_one_song_itself(copies: Seq<Held>, a: int)
    requires
        0 <= a < copies.len(),
    ensures
        one_song(copies, a, a),
{
    let p = seq![a];
    assert(chain_of_songs(copies, p));
}

proof fn lemma_one_song_back(copies: Seq<Held>, a: int, b: int)
    requires
        one_song(copies, a, b),
    ensures
        one_song(copies, b, a),
{
    let p = choose|p: Seq<int>| #[trigger] chain_of_songs(copies, p) && p[0] == a && p.last() == b;
    let q = p.reverse();
    assert forall|k: int| 0 <= k < q.len() - 1 implies shares(copies, #[trigger] q[k], q[k + 1]) by {
        let i = p.len() - 2 - k;
        assert(shares(copies, p[i], p[i + 1]));
        assert(q[k] == p[i + 1]);
        assert(q[k + 1] == p[i]);
        let s = choose|s: (Seq<char>, Seq<char>, u32, Option<u32>, Seq<char>)|
            songs_of(copies[p[i]]).contains(s) && songs_of(copies[p[i + 1]]).contains(s);
        assert(songs_of(copies[q[k]]).contains(s) && songs_of(copies[q[k + 1]]).contains(s));
    }
    assert(chain_of_songs(copies, q));
}

proof fn lemma_one_song_on(copies: Seq<Held>, a: int, b: int, c: int)
    requires
        one_song(copies, a, b),
        one_song(copies, b, c),
    ensures
        one_song(copies, a, c),
{
    let p = choose|p: Seq<int>| #[trigger] chain_of_songs(copies, p) && p[0] == a && p.last() == b;
    let q = choose|q: Seq<int>| #[trigger] chain_of_songs(copies, q) && q[0] == b && q.last() == c;
    let r = p + q.drop_first();
    assert forall|k: int| 0 <= k < r.len() implies 0 <= #[trigger] r[k] < copies.len() by {
        if k >= p.len() {
            assert(r[k] == q[k - p.len() + 1]);
        }
    }
    assert forall|k: int| 0 <= k < r.len() - 1 implies shares(copies, #[trigger] r[k], r[k + 1]) by {
        if k < p.len() - 1 {
            assert(r[k] == p[k] && r[k + 1] == p[k + 1]);
        } else if k == p.len() - 1 {
            assert(r[k] == b && q[0] == b);
            assert(r[k + 1] == q[1]);
            assert(shares(copies, q[0], q[1]));
        } else {
            assert(r[k] == q[k - p.len() + 1]);
            assert(r[k + 1] == q[k - p.len() + 2]);
            assert(shares(copies, q[k - p.len() + 1], q[k - p.len() + 2]));
        }
    }
    assert(chain_of_songs(copies, r));
    if q.len() == 1 {
        assert(r.last() == p.last());
    } else {
        assert(r.last() == q.last());
    }
}

proof fn lemma_shared_is_one_song(copies: Seq<Held>, a: int, b: int)
    requires
        0 <= a < copies.len(),
        0 <= b < copies.len(),
        shares(copies, a, b),
    ensures
        one_song(copies, a, b),
{
    let p = seq![a, b];
    assert(chain_of_songs(copies, p));
}


/// Every song the map names is named by the copy it notes, one of those
/// before `upto`.
pub open spec fn names_held(copies: Seq<Held>, named: Map<SongSeen, usize>, upto: int) -> bool {
    forall|s: SongSeen|
        #[trigger] named.contains_key(s) ==> named[s] < upto && songs_of(
            copies[named[s] as int],
        ).contains(s)
}

/// Every copy before `upto` is gathered with the copy noted under each
/// song it may be.
pub open spec fn names_lead(
    copies: Seq<Held>,
    under: Seq<usize>,
    named: Map<SongSeen, usize>,
    upto: int,
) -> bool {
    forall|j: int, s: SongSeen|
        0 <= j < upto && #[trigger] songs_of(copies[j]).contains(s) ==> named.contains_key(s)
            && head(under, j) == head(under, named[s] as int)
}

/// Copies gathered together are one song.
pub open spec fn heads_are_songs(copies: Seq<Held>, under: Seq<usize>) -> bool {
    forall|a: int, b: int|
        0 <= a < copies.len() && 0 <= b < copies.len() && #[trigger] head(under, a)
            == #[trigger] head(under, b) ==> one_song(copies, a, b)
}

/// Joining the gatherings of two copies that are one song keeps copies
/// gathered together gathered together, and copies gathered together one
/// song.
proof fn lemma_join_keeps(copies: Seq<Held>, before: Seq<usize>, after: Seq<usize>, x: int, y: int)
    requires
        before.len() == copies.len(),
        0 <= x < copies.len(),
        0 <= y < copies.len(),
        one_song(copies, x, y),
        heads_are_songs(copies, before),
        forall|j: int|
            0 <= j < copies.len() ==> #[trigger] head(after, j) == if head(before, j) == head(
                before,
                x,
            ) || head(before, j) == head(before, y) {
                if head(before, x) <= head(before, y) {
                    head(before, x)
                } else {
                    head(before, y)
                }
            } else {
                head(before, j)
            },
    ensures
        heads_are_songs(copies, after),
        forall|a: int, b: int|
            0 <= a < copies.len() && 0 <= b < copies.len() && #[trigger] head(before, a)
                == #[trigger] head(before, b) ==> head(after, a) == head(after, b),
{
    let hx = head(before, x);
    let hy = head(before, y);
    assert forall|a: int, b: int|
        0 <= a < copies.len() && 0 <= b < copies.len() && #[trigger] head(after, a)
            == #[trigger] head(after, b) implies one_song(copies, a, b) by {
        let ha = head(before, a);
        let hb = head(before, b);
        let in_a = ha == hx || ha == hy;
        let in_b = hb == hx || hb == hy;
        assert(head(after, a) == head(after, b));
        if in_a && in_b {
            assert(one_song(copies, a, y)) by {
                if ha == hx {
                    assert(head(before, a) == head(before, x));
                    lemma_one_song_on(copies, a, x, y);
                } else {
                    assert(head(before, a) == head(before, y));
                }
            }
            assert(one_song(copies, b, y)) by {
                if hb == hx {
                    assert(head(before, b) == head(before, x));
                    lemma_one_song_on(copies, b, x, y);
                } else {
                    assert(head(before, b) == head(before, y));
                }
            }
            lemma_one_song_back(copies, b, y);
            lemma_one_song_on(copies, a, y, b);
        } else if !in_a && !in_b {
            assert(head(before, a) == head(before, b));
        } else {
            assert(false);
        }
    }
    assert forall|a: int, b: int|
        0 <= a < copies.len() && 0 <= b < copies.len() && #[trigger] head(before, a)
            == #[trigger] head(before, b) implies head(after, a) == head(after, b) by {
        assert(head(after, a) == head(after, b));
    }
}

/// Copies one song are gathered together, once every copy is gathered
/// with the copy noted under each song it may be.
proof fn lemma_one_song_one_head(
    copies: Seq<Held>,
    under: Seq<usize>,
    named: Map<SongSeen, usize>,
    p: Seq<int>,
    k: int,
)
    requires
        names_lead(copies, under, named, copies.len() as int),
        chain_of_songs(copies, p),
        0 <= k < p.len(),
    ensures
        head(under, p[0]) == head(under, p[k]),
    decreases k,
{
    if k > 0 {
        lemma_one_song_one_head(copies, under, named, p, k - 1);
        assert(shares(copies, p[k - 1], p[k]));
        let s = choose|s: SongSeen|
            songs_of(copies[p[k - 1]]).contains(s) && songs_of(copies[p[k]]).contains(s);
        assert(songs_of(copies[p[k - 1]]).contains(s));
        assert(songs_of(copies[p[k]]).contains(s));
    }
}

/// Gathers the copies into songs: each copy is joined with the first copy
/// to name each song it may be.
fn gather_songs(copies: &Vec<Held>) -> (g: Gathering)
    ensures
        g.well_formed(),
        g.under().len() == copies@.len(),
        forall|a: int, b: int|
            0 <= a < copies@.len() && 0 <= b < copies@.len() ==> (#[trigger] g.head_of(a)
                == #[trigger] g.head_of(b) <==> one_song(copies@, a, b)),
{
    let n = copies.len();
    let ghost cs = copies@;
    let mut gathered = Gathering::of(n);
    let mut named = no_songs();
    proof {
        assert forall|a: int, b: int|
            0 <= a < cs.len() && 0 <= b < cs.len() && #[trigger] head(gathered.under(), a)
                == #[trigger] head(gathered.under(), b) implies one_song(cs, a, b) by {
            assert(gathered.head_of(a) == a);
            assert(gathered.head_of(b) == b);
            lemma_one_song_itself(cs, a);
        }
    }
    let mut i: usize = 0;
    while i < n
        invariant
            n == cs.len(),
            cs == copies@,
            i <= n,
            gathered.well_formed(),
            gathered.under().len() == n,
            names_held(cs, songs_held(named), i as int),
            names_lead(cs, gathered.under(), songs_held(named), i as int),
            heads_are_songs(cs, gathered.under()),
        decreases n - i,
    {
        let songs = copies[i].songs();
        let ghost seen = songs@.map_values(|s: Song| song_view(s));
        assert(seen == songs_of(cs[i as int]));
        let mut t: usize = 0;
        while t < songs.len()
            invariant
                n == cs.len(),
                cs == copies@,
                i < n,
                t <= songs@.len(),
                seen == songs@.map_values(|s: Song| song_view(s)),
                seen == songs_of(cs[i as int]),
                gathered.well_formed(),
                gathered.under().len() == n,
                names_held(cs, songs_held(named), i + 1),
                names_lead(cs, gathered.under(), songs_held(named), i as int),
                heads_are_songs(cs, gathered.under()),
                forall|u: int|
                    0 <= u < t ==> songs_held(named).contains_key(#[trigger] seen[u]) && head(
                        gathered.under(),
                        i as int,
                    ) == head(gathered.under(), songs_held(named)[seen[u]] as int),
            decreases songs@.len() - t,
        {
            let key = key_of(&songs[t]);
            let ghost s = seen[t as int];
            assert(song_key_view(key) == s);
            match song_at(&named, &key) {
                Some(first) => {
                    let ghost before = gathered.under();
                    let ghost old_g = gathered;
                    proof {
                        assert(songs_of(cs[first as int]).contains(s));
                        assert(songs_of(cs[i as int])[t as int] == s);
                        assert(songs_of(cs[i as int]).contains(s));
                        assert(shares(cs, first as int, i as int));
                        lemma_shared_is_one_song(cs, first as int, i as int);
                    }
                    gathered.join(first, i);
                    proof {
                        let after = gathered.under();
                        assert forall|j: int| 0 <= j < cs.len() implies #[trigger] head(after, j)
                            == if head(before, j) == head(before, first as int) || head(before, j)
                            == head(before, i as int) {
                            if head(before, first as int) <= head(before, i as int) {
                                head(before, first as int)
                            } else {
                                head(before, i as int)
                            }
                        } else {
                            head(before, j)
                        } by {
                            assert(gathered.head_of(j) == head(after, j));
                            assert(old_g.head_of(j) == head(before, j));
                        }
                        lemma_join_keeps(cs, before, after, first as int, i as int);
                        assert(head(after, first as int) == head(after, i as int));
                        assert forall|j: int, s2: SongSeen|
                            0 <= j < i && #[trigger] songs_of(cs[j]).contains(s2) implies songs_held(
                            named,
                        ).contains_key(s2) && head(after, j) == head(
                            after,
                            songs_held(named)[s2] as int,
                        ) by {
                            assert(head(before, j) == head(before, songs_held(named)[s2] as int));
                        }
                        assert forall|u: int| 0 <= u < t + 1 implies songs_held(named).contains_key(
                            #[trigger] seen[u],
                        ) && head(after, i as int) == head(
                            after,
                            songs_held(named)[seen[u]] as int,
                        ) by {
                            if u < t {
                                assert(head(before, i as int) == head(
                                    before,
                                    songs_held(named)[seen[u]] as int,
                                ));
                            }
                        }
                    }
                },
                None => {
                    let ghost before_named = songs_held(named);
                    put_song(&mut named, key, i);
                    proof {
                        let now = songs_held(named);
                        assert(songs_of(cs[i as int])[t as int] == s);
                        assert(songs_of(cs[i as int]).contains(s));
                        assert forall|s2: SongSeen| #[trigger] now.contains_key(s2) implies now[s2]
                            < i + 1 && songs_of(cs[now[s2] as int]).contains(s2) by {
                            if s2 != s {
                                assert(before_named.contains_key(s2));
                            }
                        }
                        assert forall|j: int, s2: SongSeen|
                            0 <= j < i && #[trigger] songs_of(cs[j]).contains(s2) implies now.contains_key(
                            s2,
                        ) && head(gathered.under(), j) == head(gathered.under(), now[s2] as int) by {
                            assert(before_named.contains_key(s2));
                            assert(s2 != s);
                        }
                        assert forall|u: int| 0 <= u < t + 1 implies now.contains_key(
                            #[trigger] seen[u],
                        ) && head(gathered.under(), i as int) == head(
                            gathered.under(),
                            now[seen[u]] as int,
                        ) by {
                            if u < t {
                                assert(before_named.contains_key(seen[u]));
                                assert(seen[u] != s);
                            }
                        }
                    }
                },
            }
            t = t + 1;
        }
        proof {
            let under = gathered.under();
            let nm = songs_held(named);
            assert forall|j: int, s2: SongSeen|
                0 <= j < i + 1 && #[trigger] songs_of(cs[j]).contains(s2) implies nm.contains_key(
                s2,
            ) && head(under, j) == head(under, nm[s2] as int) by {
                if j == i {
                    let u = choose|u: int| 0 <= u < seen.len() && seen[u] == s2;
                    assert(nm.contains_key(seen[u]));
                }
            }
        }
        i = i + 1;
    }
    proof {
        let under = gathered.under();
        let nm = songs_held(named);
        assert forall|a: int, b: int|
            0 <= a < cs.len() && 0 <= b < cs.len() implies (#[trigger] gathered.head_of(a)
                == #[trigger] gathered.head_of(b) <==> one_song(cs, a, b)) by {
            if one_song(cs, a, b) {
                let p = choose|p: Seq<int>| #[trigger] chain_of_songs(cs, p) && p[0] == a && p.last() == b;
                lemma_one_song_one_head(cs, under, nm, p, p.len() - 1);
            }
            if gathered.head_of(a) == gathered.head_of(b) {
                assert(head(under, a) == head(under, b));
            }
        }
    }
    gathered
}


/// The copies, among the first `upto`, whose gathering a head heads, in
/// order.
pub open spec fn members(under: Seq<usize>, r: int, upto: int) -> Seq<usize>
    decreases upto,
{
    if upto <= 0 {
        seq![]
    } else {
        members(under, r, upto - 1) + if head(under, upto - 1) == r {
            seq![(upto - 1) as usize]
        } else {
            seq![]
        }
    }
}

/// What the members of a gathering are: copies before `upto` that the
/// head heads, each once, in order, and every such copy among them.
pub open spec fn members_fit(m: Seq<usize>, under: Seq<usize>, r: int, upto: int) -> bool {
    &&& forall|k: int| 0 <= k < m.len() ==> #[trigger] m[k] < upto && head(under, m[k] as int) == r
    &&& forall|k: int, l: int| 0 <= k < l < m.len() ==> #[trigger] m[k] < #[trigger] m[l]
    &&& forall|j: int|
        0 <= j < upto && head(under, j) == r ==> exists|k: int| 0 <= k < m.len() && #[trigger] m[k] == j
}

proof fn lemma_members(under: Seq<usize>, r: int, upto: int)
    requires
        0 <= upto <= under.len(),
        under.len() <= usize::MAX,
    ensures
        members_fit(members(under, r, upto), under, r, upto),
    decreases upto,
{
    if upto > 0 {
        lemma_members(under, r, upto - 1);
        let before = members(under, r, upto - 1);
        let m = members(under, r, upto);
        if head(under, upto - 1) == r {
            assert(m =~= before.push((upto - 1) as usize));
            assert forall|j: int| 0 <= j < upto && head(under, j) == r implies exists|k: int|
                0 <= k < m.len() && #[trigger] m[k] == j by {
                if j == upto - 1 {
                    assert(m[m.len() - 1] == j);
                } else {
                    let k = choose|k: int| 0 <= k < before.len() && #[trigger] before[k] == j;
                    assert(m[k] == j);
                }
            }
        } else {
            assert(m =~= before);
        }
    }
}

/// Lists of copies by gathering: every copy in exactly one list, each
/// list in the order the copies came in, and two copies in one list just
/// where they are gathered together.
pub open spec fn heads_listed(under: Seq<usize>, lists: Seq<Seq<usize>>) -> bool {
    &&& forall|g: int, k: int|
        0 <= g < lists.len() && 0 <= k < lists[g].len() ==> #[trigger] lists[g][k] < under.len()
    &&& forall|g: int, k: int, l: int|
        0 <= g < lists.len() && 0 <= k < l < lists[g].len() ==> #[trigger] lists[g][k]
            < #[trigger] lists[g][l]
    &&& forall|g: int, k: int, h: int, m: int|
        0 <= g < lists.len() && 0 <= k < lists[g].len() && 0 <= h < lists.len() && 0 <= m
            < lists[h].len() ==> ((g == h) <==> head(under, #[trigger] lists[g][k] as int) == head(
            under,
            #[trigger] lists[h][m] as int,
        ))
    &&& forall|i: int| 0 <= i < under.len() ==> #[trigger] listed(lists, i)
}

/// Whether some list holds copy `i`.
pub open spec fn listed(lists: Seq<Seq<usize>>, i: int) -> bool {
    exists|g: int, k: int| 0 <= g < lists.len() && 0 <= k < lists[g].len() && #[trigger] lists[g][k] == i
}

/// Lists the copies by the gathering each is in, each list in the order
/// the copies came in.
fn list_heads(gathered: &mut Gathering) -> (r: Vec<Vec<usize>>)
    requires
        old(gathered).well_formed(),
    ensures
        heads_listed(old(gathered).under(), r@.map_values(|l: Vec<usize>| l@)),
{
    let n = gathered.under.len();
    let ghost u0 = gathered.under();
    assert(downward(u0));
    let mut lists = no_lists();
    let mut index: usize = 0;
    while index < n
        invariant
            n == u0.len(),
            downward(u0),
            index <= n,
            gathered.well_formed(),
            gathered.under().len() == n,
            forall|j: int| 0 <= j < n ==> #[trigger] head(gathered.under(), j) == head(u0, j),
            forall|key: usize| #[trigger]
                lists_held(lists).contains_key(key) ==> lists_held(lists)[key] == members(
                    u0,
                    key as int,
                    index as int,
                ),
            forall|j: int|
                0 <= j < index ==> lists_held(lists).contains_key(#[trigger] head(u0, j) as usize),
        decreases n - index,
    {
        let ghost g0 = *gathered;
        let top = gathered.root(index);
        let ghost before = lists_held(lists);
        proof {
            assert(g0.head_of(index as int) == head(u0, index as int));
            lemma_head_bounds(u0, index as int);
            lemma_members(u0, top as int, index as int);
            assert forall|j: int| 0 <= j < n implies #[trigger] head(gathered.under(), j) == head(u0, j) by {
                assert(gathered.head_of(j) == g0.head_of(j));
            }
            if !before.contains_key(top) {
                let m = members(u0, top as int, index as int);
                if m.len() > 0 {
                    assert(head(u0, m[0] as int) == top);
                    assert(before.contains_key(head(u0, m[0] as int) as usize));
                }
                assert(m =~= Seq::<usize>::empty());
            }
        }
        push_under(&mut lists, top, index);
        proof {
            let now = lists_held(lists);
            assert forall|key: usize| #[trigger] now.contains_key(key) implies now[key] == members(
                u0,
                key as int,
                index + 1,
            ) by {
                if key == top {
                    assert(members(u0, key as int, index + 1) =~= members(
                        u0,
                        key as int,
                        index as int,
                    ).push(index));
                } else {
                    assert(members(u0, key as int, index + 1) =~= members(
                        u0,
                        key as int,
                        index as int,
                    ));
                }
            }
            assert forall|j: int| 0 <= j < index + 1 implies now.contains_key(
                #[trigger] head(u0, j) as usize,
            ) by {
                if j < index {
                    assert(before.contains_key(head(u0, j) as usize));
                }
            }
        }
        index = index + 1;
    }
    let ghost held = lists_held(lists);
    let r = lists_of(lists);
    proof {
        let keys = choose|keys: Seq<usize>|
            #![trigger keys.len()]
            keys.len() == r@.len() && keys.no_duplicates() && keys.to_set() == held.dom() && forall|
                i: int,
            | 0 <= i < keys.len() ==> #[trigger] r@[i]@ == held[keys[i]];
        let ls = r@.map_values(|l: Vec<usize>| l@);
        assert forall|g: int| 0 <= g < ls.len() implies #[trigger] ls[g] == members(
            u0,
            keys[g] as int,
            n as int,
        ) && members_fit(ls[g], u0, keys[g] as int, n as int) by {
            assert(keys.to_set().contains(keys[g]));
            assert(held.contains_key(keys[g]));
            lemma_members(u0, keys[g] as int, n as int);
        }
        assert forall|g: int, k: int|
            0 <= g < ls.len() && 0 <= k < ls[g].len() implies #[trigger] ls[g][k] < u0.len() by {
            assert(members_fit(ls[g], u0, keys[g] as int, n as int));
        }
        assert forall|g: int, k: int, l: int|
            0 <= g < ls.len() && 0 <= k < l < ls[g].len() implies #[trigger] ls[g][k]
            < #[trigger] ls[g][l] by {
            assert(members_fit(ls[g], u0, keys[g] as int, n as int));
        }
        assert forall|g: int, k: int, h: int, m: int|
            0 <= g < ls.len() && 0 <= k < ls[g].len() && 0 <= h < ls.len() && 0 <= m
                < ls[h].len() implies ((g == h) <==> head(u0, #[trigger] ls[g][k] as int) == head(
            u0,
            #[trigger] ls[h][m] as int,
        )) by {
            assert(members_fit(ls[g], u0, keys[g] as int, n as int));
            assert(members_fit(ls[h], u0, keys[h] as int, n as int));
            assert(head(u0, ls[g][k] as int) == keys[g]);
            assert(head(u0, ls[h][m] as int) == keys[h]);
            if g != h {
                assert(keys[g] != keys[h]);
            }
        }
        assert forall|i: int| 0 <= i < u0.len() implies #[trigger] listed(ls, i) by {
            lemma_head_bounds(u0, i);
            let key = head(u0, i) as usize;
            assert(held.contains_key(key));
            assert(keys.to_set().contains(key));
            let g = choose|g: int| 0 <= g < keys.len() && keys[g] == key;
            assert(members_fit(ls[g], u0, keys[g] as int, n as int));
            assert(head(u0, i) == keys[g] as int);
            let k = choose|k: int| 0 <= k < ls[g].len() && #[trigger] ls[g][k] == i;
            assert(ls[g][k] == i);
        }
        assert(heads_listed(u0, ls));
    }
    r
}


/// Copies gathered one song apiece: copies that may be the same song, and
/// copies gathered with those, are one song. Each song's copies keep the
/// order they came in; the songs come in an order the map they are
/// gathered in leaves open.
pub fn one_song_apiece(copies: Vec<Held>) -> (r: Vec<Vec<Held>>)
    ensures
        exists|lists: Seq<Seq<usize>>|
            #![trigger lists.len()]
            {
                &&& lists.len() == r@.len()
                &&& forall|g: int|
                    0 <= g < lists.len() ==> #[trigger] r@[g]@ == lists[g].map_values(
                        |i: usize| copies@[i as int],
                    )
                &&& forall|g: int, k: int|
                    0 <= g < lists.len() && 0 <= k < lists[g].len() ==> #[trigger] lists[g][k]
                        < copies@.len()
                &&& forall|i: int| 0 <= i < copies@.len() ==> #[trigger] listed(lists, i)
                &&& forall|g: int, k: int, l: int|
                    0 <= g < lists.len() && 0 <= k < l < lists[g].len() ==> #[trigger] lists[g][k]
                        < #[trigger] lists[g][l]
                &&& forall|g: int, k: int, h: int, m: int|
                    0 <= g < lists.len() && 0 <= k < lists[g].len() && 0 <= h < lists.len() && 0
                        <= m < lists[h].len() ==> ((g == h) == one_song(
                        copies@,
                        #[trigger] lists[g][k] as int,
                        #[trigger] lists[h][m] as int,
                    ))
            },
{
    let ghost cs = copies@;
    let mut gathered = gather_songs(&copies);
    let ghost g1 = gathered;
    let ghost u1 = gathered.under();
    let groups = list_heads(&mut gathered);
    let ghost lists = groups@.map_values(|l: Vec<usize>| l@);
    let mut r: Vec<Vec<Held>> = Vec::new();
    let mut g: usize = 0;
    while g < groups.len()
        invariant
            lists == groups@.map_values(|l: Vec<usize>| l@),
            heads_listed(u1, lists),
            u1.len() == cs.len(),
            cs == copies@,
            g <= groups@.len(),
            r@.len() == g,
            forall|h: int| 0 <= h < g ==> #[trigger] r@[h]@ == lists[h].map_values(
                |i: usize| cs[i as int],
            ),
        decreases groups@.len() - g,
    {
        let mut group: Vec<Held> = Vec::new();
        let mut k: usize = 0;
        while k < groups[g].len()
            invariant
                lists == groups@.map_values(|l: Vec<usize>| l@),
                heads_listed(u1, lists),
                u1.len() == cs.len(),
                cs == copies@,
                g < groups@.len(),
                k <= lists[g as int].len(),
                group@ == lists[g as int].subrange(0, k as int).map_values(|i: usize| cs[i as int]),
            decreases lists[g as int].len() - k,
        {
            let i = groups[g][k];
            assert(lists[g as int][k as int] == i);
            let copy = copy_of(&copies[i]);
            group.push(copy);
            assert(lists[g as int].subrange(0, k + 1) =~= lists[g as int].subrange(0, k as int).push(i));
            assert(group@ =~= lists[g as int].subrange(0, k + 1).map_values(|i: usize| cs[i as int]));
            k = k + 1;
        }
        assert(lists[g as int].subrange(0, k as int) =~= lists[g as int]);
        r.push(group);
        g = g + 1;
    }
    proof {
        assert forall|g: int, k: int, h: int, m: int|
            0 <= g < lists.len() && 0 <= k < lists[g].len() && 0 <= h < lists.len() && 0 <= m
                < lists[h].len() implies ((g == h) == one_song(
            cs,
            #[trigger] lists[g][k] as int,
            #[trigger] lists[h][m] as int,
        )) by {
            assert(g1.head_of(lists[g][k] as int) == head(u1, lists[g][k] as int));
            assert(g1.head_of(lists[h][m] as int) == head(u1, lists[h][m] as int));
        }
        assert(lists.len() == r@.len());
    }
    r
}

} // verus!
