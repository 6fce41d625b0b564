//! What an enrichment is asked to look at first: the albums and artists
//! sought while it runs, each held once, the newest last; and how one
//! sought is lifted to the front of what is still to be asked.
use vstd::prelude::*;

use crate::hashed::{hold_seek, holds_seek, no_seeks, no_seeks_held, seeks_held, SeekSet};
use crate::ids::{AlbumId, ArtistId, TrackId};
use crate::model::AlbumToAsk;

verus! {

/// An album or an artist sought.
#[derive(Clone, Copy, Debug, PartialEq, Eq, Structural, Hash)]
pub enum Seek {
    Album(AlbumId),
    Artist(ArtistId),
}

/// What is still to be asked about: an album, a track or an artist.
#[derive(Clone, Debug, PartialEq, Eq)]
pub enum Ask {
    Album(AlbumToAsk),
    Track(TrackId),
    Artist(ArtistId),
}

/// Whether an ask is for what was sought.
pub open spec fn asks_for(ask: Ask, seek: Seek) -> bool {
    match (ask, seek) {
        (Ask::Album(album), Seek::Album(id)) => album.id == id,
        (Ask::Artist(artist), Seek::Artist(id)) => artist == id,
        _ => false,
    }
}

impl Ask {
    /// Whether the ask is for what was sought.
    pub fn is(&self, seek: Seek) -> (r: bool)
        ensures
            r == asks_for(*self, seek),
    {
        match (self, seek) {
            (Ask::Album(album), Seek::Album(id)) => album.id == id,
            (Ask::Artist(artist), Seek::Artist(id)) => *artist == id,
            _ => false,
        }
    }
}

/// The seeks held, once each: what was held without the one sought again,
/// and it last.
pub open spec fn without(asked: Seq<Seek>, seek: Seek) -> Seq<Seek>
    decreases asked.len(),
{
    if asked.len() == 0 {
        seq![]
    } else {
        without(asked.drop_last(), seek) + if asked.last() == seek {
            seq![]
        } else {
            seq![asked.last()]
        }
    }
}

proof fn lemma_without(asked: Seq<Seek>, seek: Seek)
    ensures
        !without(asked, seek).contains(seek),
        forall|x: Seek| #[trigger] without(asked, seek).contains(x) ==> asked.contains(x),
        asked.no_duplicates() ==> without(asked, seek).no_duplicates(),
    decreases asked.len(),
{
    if asked.len() > 0 {
        let rest = asked.drop_last();
        lemma_without(rest, seek);
        let w = without(asked, seek);
        let wr = without(rest, seek);
        assert forall|x: Seek| #[trigger] w.contains(x) implies asked.contains(x) by {
            let i = choose|i: int| 0 <= i < w.len() && w[i] == x;
            if i < wr.len() {
                assert(wr[i] == x);
                assert(wr.contains(x));
                let j = choose|j: int| 0 <= j < rest.len() && rest[j] == x;
                assert(asked[j] == x);
            } else {
                assert(asked[asked.len() - 1] == x);
            }
        }
        if !(w.contains(seek)) {
        } else {
            let i = choose|i: int| 0 <= i < w.len() && w[i] == seek;
            if i < wr.len() {
                assert(wr[i] == seek);
                assert(wr.contains(seek));
            }
        }
        if asked.no_duplicates() {
            assert(rest.no_duplicates());
            if asked.last() != seek {
                assert(!rest.contains(asked.last()));
                assert(!wr.contains(asked.last()));
                assert forall|i: int, j: int| 0 <= i < w.len() && 0 <= j < w.len() && i != j implies w[i]
                    != w[j] by {
                    if i == w.len() - 1 && j < wr.len() {
                        assert(wr[j] == w[j]);
                        assert(wr.contains(w[j]));
                    } else if j == w.len() - 1 && i < wr.len() {
                        assert(wr[i] == w[i]);
                        assert(wr.contains(w[i]));
                    }
                }
            } else {
                assert(w =~= wr);
            }
        }
    }
}

/// Whatever is sought, and however often, each seek is held once: seeking
/// keeps the seeks free of repeats.
pub proof fn a_seek_is_held_once(asked: Seq<Seek>, seek: Seek)
    requires
        asked.no_duplicates(),
    ensures
        without(asked, seek).push(seek).no_duplicates(),
        without(asked, seek).push(seek).last() == seek,
{
    lemma_without(asked, seek);
    let w = without(asked, seek);
    assert forall|i: int, j: int|
        0 <= i < w.push(seek).len() && 0 <= j < w.push(seek).len() && i != j implies w.push(
        seek,
    )[i] != w.push(seek)[j] by {
        if i == w.len() {
            assert(w.contains(w[j]));
        } else if j == w.len() {
            assert(w.contains(w[i]));
        }
    }
}

/// What was sought while an enrichment ran, each once, the newest last.
#[derive(Clone, Debug, Default, PartialEq, Eq)]
pub struct Sought {
    asked: Vec<Seek>,
}

impl Sought {
    /// The seeks held, oldest first.
    pub closed spec fn held(self) -> Seq<Seek> {
        self.asked@
    }

    /// Nothing sought yet.
    pub fn new() -> (r: Sought)
        ensures
            r.held() == Seq::<Seek>::empty(),
    {
        Sought { asked: Vec::new() }
    }

    /// Seeks an album: held once, the newest.
    pub fn album(&mut self, id: AlbumId)
        ensures
            final(self).held() == without(old(self).held(), Seek::Album(id)).push(Seek::Album(id)),
    {
        self.seek(Seek::Album(id));
    }

    /// Seeks an artist: held once, the newest.
    pub fn artist(&mut self, id: ArtistId)
        ensures
            final(self).held() == without(old(self).held(), Seek::Artist(id)).push(
                Seek::Artist(id),
            ),
    {
        self.seek(Seek::Artist(id));
    }

    fn seek(&mut self, seek: Seek)
        ensures
            final(self).held() == without(old(self).held(), seek).push(seek),
    {
        let ghost before = self.asked@;
        let mut kept: Vec<Seek> = Vec::new();
        let mut i: usize = 0;
        while i < self.asked.len()
            invariant
                i <= self.asked@.len(),
                self.asked@ == before,
                kept@ == without(before.subrange(0, i as int), seek),
            decreases self.asked@.len() - i,
        {
            assert(before.subrange(0, i + 1).drop_last() =~= before.subrange(0, i as int));
            let held = self.asked[i];
            if held != seek {
                kept.push(held);
            }
            i = i + 1;
        }
        assert(before.subrange(0, i as int) =~= before);
        kept.push(seek);
        self.asked = kept;
    }

    /// Takes every seek held, oldest first, and holds none.
    pub fn taken(&mut self) -> (r: Vec<Seek>)
        ensures
            r@ == old(self).held(),
            final(self).held() == Seq::<Seek>::empty(),
    {
        let mut taken: Vec<Seek> = Vec::new();
        std::mem::swap(&mut taken, &mut self.asked);
        taken
    }
}

/// Where the first ask for what was sought stands, from `from` on.
pub open spec fn first_asking(queue: Seq<Ask>, from: int, seek: Seek) -> Option<int>
    decreases queue.len() - from,
{
    if from < 0 || from >= queue.len() {
        None
    } else if asks_for(queue[from], seek) {
        Some(from)
    } else {
        first_asking(queue, from + 1, seek)
    }
}

proof fn lemma_first_asking(queue: Seq<Ask>, from: int, seek: Seek)
    requires
        0 <= from,
    ensures
        match first_asking(queue, from, seek) {
            Some(p) => from <= p < queue.len() && asks_for(queue[p], seek),
            None => true,
        },
    decreases queue.len() - from,
{
    if from < queue.len() {
        lemma_first_asking(queue, from + 1, seek);
    }
}

/// Lifts the first ask for what was sought, from `from` on, to `from`,
/// and the asks between one place back; answers whether any was.
pub fn rotated(queue: &mut Vec<Ask>, from: usize, seek: Seek) -> (r: bool)
    ensures
        match first_asking(old(queue)@, from as int, seek) {
            Some(p) => r && final(queue)@ == old(queue)@.take(from as int) + seq![old(queue)@[p]]
                + old(queue)@.subrange(from as int, p) + old(queue)@.skip(p + 1),
            None => !r && final(queue)@ == old(queue)@,
        },
{
    let ghost before = queue@;
    let mut at = from;
    while at < queue.len()
        invariant
            queue@ == before,
            before == old(queue)@,
            from <= at,
            first_asking(before, from as int, seek) == first_asking(before, at as int, seek),
        decreases queue@.len() - at,
    {
        if queue[at].is(seek) {
            proof {
                lemma_first_asking(before, from as int, seek);
                assert(first_asking(before, at as int, seek) == Some(at as int));
            }
            let ask = queue.remove(at);
            queue.insert(from, ask);
            assert(queue@ =~= before.take(from as int) + seq![before[at as int]] + before.subrange(
                from as int,
                at as int,
            ) + before.skip(at + 1));
            return true;
        }
        at = at + 1;
    }
    false
}


/// The key a seek is held under: its kind, and its number.
pub open spec fn seek_key(seek: Seek) -> (u8, u64) {
    match seek {
        Seek::Album(id) => (0, id.spec_get()),
        Seek::Artist(id) => (1, id.spec_get()),
    }
}

fn key_of(seek: Seek) -> (r: (u8, u64))
    ensures
        r == seek_key(seek),
{
    match seek {
        Seek::Album(id) => (0, id.get()),
        Seek::Artist(id) => (1, id.get()),
    }
}

/// What has been asked about in a pass: the albums and artists spent.
pub struct Spent {
    held: SeekSet,
}

impl Spent {
    /// The keys of the seeks spent.
    pub closed spec fn keys(self) -> Set<(u8, u64)> {
        seeks_held(self.held)
    }

    /// Nothing spent yet.
    pub fn new() -> (r: Spent)
        ensures
            r.keys() == Set::<(u8, u64)>::empty(),
    {
        Spent { held: no_seeks() }
    }

    /// Notes a seek as spent.
    pub fn spend(&mut self, seek: Seek)
        ensures
            final(self).keys() == old(self).keys().insert(seek_key(seek)),
    {
        hold_seek(&mut self.held, key_of(seek));
    }

    /// Whether a seek has been spent.
    pub fn holds(&self, seek: Seek) -> (r: bool)
        ensures
            r == self.keys().contains(seek_key(seek)),
    {
        holds_seek(&self.held, key_of(seek))
    }
}

/// What lifting one seek came to: it was spent already, it was lifted to
/// the front, or it is not queued and the catalog is to say whether it is
/// still due.
#[derive(Clone, Copy, Debug, PartialEq, Eq, Structural)]
pub enum Lifted {
    Spent,
    Rotated,
    NotQueued,
}

/// Lifts one seek before the asks from `from` on: a seek spent already is
/// passed over; one still queued is lifted to `from`.
pub fn lift_one(queue: &mut Vec<Ask>, from: usize, spent: &Spent, seek: Seek) -> (r: Lifted)
    ensures
        spent.keys().contains(seek_key(seek)) ==> r == Lifted::Spent && final(queue)@ == old(
            queue,
        )@,
        !spent.keys().contains(seek_key(seek)) ==> match first_asking(
            old(queue)@,
            from as int,
            seek,
        ) {
            Some(p) => r == Lifted::Rotated && final(queue)@ == old(queue)@.take(from as int)
                + seq![old(queue)@[p]] + old(queue)@.subrange(from as int, p) + old(queue)@.skip(
                p + 1,
            ),
            None => r == Lifted::NotQueued && final(queue)@ == old(queue)@,
        },
{
    if spent.holds(seek) {
        return Lifted::Spent;
    }
    if rotated(queue, from, seek) {
        Lifted::Rotated
    } else {
        Lifted::NotQueued
    }
}

/// The first `n` of a run, or all of it where no limit is asked.
pub open spec fn at_most<A>(s: Seq<A>, limit: Option<usize>) -> Seq<A> {
    match limit {
        Some(n) => if n < s.len() {
            s.take(n as int)
        } else {
            s
        },
        None => s,
    }
}

/// The albums only to be rematched, or those to be asked about, in order.
pub open spec fn albums_where(albums: Seq<AlbumToAsk>, rematch_only: bool) -> Seq<AlbumToAsk>
    decreases albums.len(),
{
    if albums.len() == 0 {
        seq![]
    } else {
        albums_where(albums.drop_last(), rematch_only) + if albums.last().rematch_only
            == rematch_only {
            seq![albums.last()]
        } else {
            seq![]
        }
    }
}

/// The asks a pass starts with, in order: the albums due (at most the
/// limit), then the tracks, then the artists (each at most the limit).
pub open spec fn queue_of(
    albums: Seq<AlbumToAsk>,
    tracks: Seq<TrackId>,
    artists: Seq<ArtistId>,
    limit: Option<usize>,
) -> Seq<Ask> {
    at_most(albums_where(albums, false), limit).map_values(|a: AlbumToAsk| Ask::Album(a)) + at_most(
        tracks,
        limit,
    ).map_values(|t: TrackId| Ask::Track(t)) + at_most(artists, limit).map_values(
        |a: ArtistId| Ask::Artist(a),
    )
}

fn truncated<A>(v: &mut Vec<A>, limit: Option<usize>)
    ensures
        final(v)@ == at_most(old(v)@, limit),
{
    match limit {
        Some(n) => {
            if n < v.len() {
                v.truncate(n);
            }
        },
        None => {},
    }
}

/// The asks a pass starts with, as [`queue_of`] reads, and apart from them
/// the albums only to be rematched, in order.
pub fn queued(
    albums: Vec<AlbumToAsk>,
    tracks: Vec<TrackId>,
    artists: Vec<ArtistId>,
    limit: Option<usize>,
) -> (r: (Vec<Ask>, Vec<AlbumToAsk>))
    ensures
        r.0@ == queue_of(albums@, tracks@, artists@, limit),
        r.1@ == albums_where(albums@, true),
{
    let ghost all = albums@;
    let n = albums.len();
    let mut due: Vec<AlbumToAsk> = Vec::new();
    let mut rematch_only: Vec<AlbumToAsk> = Vec::new();
    let mut rest = albums;
    let mut k: usize = 0;
    while rest.len() > 0
        invariant
            k + rest@.len() == n,
            all.len() == n,
            rest@ == all.subrange(k as int, n as int),
            due@ == albums_where(all.subrange(0, k as int), false),
            rematch_only@ == albums_where(all.subrange(0, k as int), true),
        decreases rest@.len(),
    {
        let album = rest.remove(0);
        assert(album == all[k as int]);
        assert(all.subrange(0, k + 1).drop_last() =~= all.subrange(0, k as int));
        if album.rematch_only {
            rematch_only.push(album);
        } else {
            due.push(album);
        }
        k = k + 1;
        assert(rest@ =~= all.subrange(k as int, n as int));
    }
    assert(all.subrange(0, k as int) =~= all);
    truncated(&mut due, limit);
    let mut tracks = tracks;
    truncated(&mut tracks, limit);
    let mut artists = artists;
    truncated(&mut artists, limit);
    let mut queue: Vec<Ask> = Vec::new();
    let ghost d = due@;
    let mut due = due;
    while due.len() > 0
        invariant
            queue@ == d.take(d.len() - due@.len()).map_values(|a: AlbumToAsk| Ask::Album(a)),
            due@ == d.skip(d.len() - due@.len()),
            due@.len() <= d.len(),
        decreases due@.len(),
    {
        let ghost k0 = d.len() - due@.len();
        let album = due.remove(0);
        queue.push(Ask::Album(album));
        assert(d.take(k0 + 1) =~= d.take(k0).push(d[k0]));
        assert(queue@ =~= d.take(d.len() - due@.len()).map_values(|a: AlbumToAsk| Ask::Album(a)));
        assert(due@ =~= d.skip(d.len() - due@.len()));
    }
    assert(d.take(d.len() as int) =~= d);
    let ghost q1 = queue@;
    let mut i: usize = 0;
    while i < tracks.len()
        invariant
            i <= tracks@.len(),
            queue@ == q1 + tracks@.take(i as int).map_values(|t: TrackId| Ask::Track(t)),
        decreases tracks@.len() - i,
    {
        queue.push(Ask::Track(tracks[i]));
        assert(tracks@.take(i + 1) =~= tracks@.take(i as int).push(tracks@[i as int]));
        i = i + 1;
        assert(queue@ =~= q1 + tracks@.take(i as int).map_values(|t: TrackId| Ask::Track(t)));
    }
    assert(tracks@.take(i as int) =~= tracks@);
    let ghost q2 = queue@;
    let mut j: usize = 0;
    while j < artists.len()
        invariant
            j <= artists@.len(),
            queue@ == q2 + artists@.take(j as int).map_values(|a: ArtistId| Ask::Artist(a)),
        decreases artists@.len() - j,
    {
        queue.push(Ask::Artist(artists[j]));
        assert(artists@.take(j + 1) =~= artists@.take(j as int).push(artists@[j as int]));
        j = j + 1;
        assert(queue@ =~= q2 + artists@.take(j as int).map_values(|a: ArtistId| Ask::Artist(a)));
    }
    assert(artists@.take(j as int) =~= artists@);
    (queue, rematch_only)
}

/// The artists the catalog still wants asked about once a pass has run
/// through its queue that the pass has not asked about already; none
/// where the pass runs to a limit.
pub open spec fn born_of(artists: Seq<ArtistId>, spent: Set<(u8, u64)>) -> Seq<ArtistId>
    decreases artists.len(),
{
    if artists.len() == 0 {
        seq![]
    } else {
        born_of(artists.drop_last(), spent) + if spent.contains(
            seek_key(Seek::Artist(artists.last())),
        ) {
            seq![]
        } else {
            seq![artists.last()]
        }
    }
}

/// The artists born in a pass, as [`born_of`] reads; none where the pass
/// runs to a limit.
pub fn born_in_the_pass(artists: Vec<ArtistId>, spent: &Spent, limited: bool) -> (r: Vec<ArtistId>)
    ensures
        limited ==> r@.len() == 0,
        !limited ==> r@ == born_of(artists@, spent.keys()),
{
    let mut born: Vec<ArtistId> = Vec::new();
    if limited {
        return born;
    }
    let mut i: usize = 0;
    while i < artists.len()
        invariant
            i <= artists@.len(),
            born@ == born_of(artists@.take(i as int), spent.keys()),
        decreases artists@.len() - i,
    {
        assert(artists@.take(i + 1).drop_last() =~= artists@.take(i as int));
        if !spent.holds(Seek::Artist(artists[i])) {
            born.push(artists[i]);
        }
        i = i + 1;
    }
    assert(artists@.take(i as int) =~= artists@);
    born
}


/// Where a pass stands: what is queued, how many of the queued have been
/// asked about, and what has been spent.
pub struct PassState {
    pub queue: Vec<Ask>,
    pub asked: usize,
    pub spent: Spent,
}

/// What the pass is told between its steps.
#[derive(Clone, Debug, PartialEq, Eq)]
pub enum PassEvent {
    /// Ready to go on; whether the pass has been cancelled, as read now.
    Ready(bool),
    /// What was sought has been lifted before the next ask.
    Lifted,
    /// The artists the catalog holds due, read once the queue ran out.
    Due(Vec<ArtistId>),
}

/// What the pass does next.
#[derive(Clone, Copy, Debug, PartialEq, Eq, Structural)]
pub enum PassAction {
    /// Lift what was sought before the next ask, then send `Lifted`.
    Lift,
    /// Ask about the queued item at this place, then send `Ready`.
    Ask(usize),
    /// Read the artists still due, and send them as `Due`.
    FindDue,
    /// Artists born in the pass were queued: send `Ready`.
    GoOn,
    /// The queue is done: settle the credits and look again for pictures.
    Settle,
    /// The pass was cancelled, and ends here.
    Stop,
}

/// What asking about an item spends: an album or an artist; a track
/// spends nothing.
pub open spec fn spent_by(spent: Set<(u8, u64)>, ask: Ask) -> Set<(u8, u64)> {
    match ask {
        Ask::Album(album) => spent.insert(seek_key(Seek::Album(album.id))),
        Ask::Track(_) => spent,
        Ask::Artist(id) => spent.insert(seek_key(Seek::Artist(id))),
    }
}

/// The asks for artists, in their order.
pub open spec fn artist_asks(artists: Seq<ArtistId>) -> Seq<Ask> {
    artists.map_values(|a: ArtistId| Ask::Artist(a))
}

/// Where the queue has run out: a limited pass settles, another looks for
/// the artists born in it.
pub open spec fn at_the_end(limited: bool) -> PassAction {
    if limited {
        PassAction::Settle
    } else {
        PassAction::FindDue
    }
}

/// One step of a pass, from where it stands and what it was told to where
/// it stands next and what it does: the queue, the number asked, the keys
/// spent, and the action.
pub open spec fn stepped(
    queue: Seq<Ask>,
    asked: int,
    spent: Set<(u8, u64)>,
    event: PassEvent,
    limited: bool,
) -> (Seq<Ask>, int, Set<(u8, u64)>, PassAction) {
    match event {
        PassEvent::Ready(cancelled) => if asked < queue.len() {
            (queue, asked, spent, if cancelled { PassAction::Stop } else { PassAction::Lift })
        } else {
            (queue, asked, spent, at_the_end(limited))
        },
        PassEvent::Lifted => if asked < queue.len() {
            (queue, asked + 1, spent_by(spent, queue[asked]), PassAction::Ask(asked as usize))
        } else {
            (queue, asked, spent, at_the_end(limited))
        },
        PassEvent::Due(artists) => {
            let born = if limited { seq![] } else { born_of(artists@, spent) };
            if born.len() == 0 {
                (queue, asked, spent, PassAction::Settle)
            } else {
                (queue + artist_asks(born), asked, spent, PassAction::GoOn)
            }
        },
    }
}

impl PassState {
    /// A pass about to ask about its queue, nothing spent.
    pub fn new(queue: Vec<Ask>) -> (r: PassState)
        ensures
            r.queue@ == queue@,
            r.asked == 0,
            r.spent.keys() == Set::<(u8, u64)>::empty(),
    {
        PassState { queue, asked: 0, spent: Spent::new() }
    }

    /// Lifts one seek before the next ask, as [`lift_one`] does.
    pub fn lift(&mut self, seek: Seek) -> (r: Lifted)
        ensures
            final(self).asked == old(self).asked,
            final(self).spent == old(self).spent,
            old(self).spent.keys().contains(seek_key(seek)) ==> r == Lifted::Spent
                && final(self).queue@ == old(self).queue@,
            !old(self).spent.keys().contains(seek_key(seek)) ==> match first_asking(
                old(self).queue@,
                old(self).asked as int,
                seek,
            ) {
                Some(p) => r == Lifted::Rotated && final(self).queue@ == old(self).queue@.take(
                    old(self).asked as int,
                ) + seq![old(self).queue@[p]] + old(self).queue@.subrange(
                    old(self).asked as int,
                    p,
                ) + old(self).queue@.skip(p + 1),
                None => r == Lifted::NotQueued && final(self).queue@ == old(self).queue@,
            },
    {
        lift_one(&mut self.queue, self.asked, &self.spent, seek)
    }

    /// Queues what the catalog says is still due of a seek not queued, as
    /// the next to be asked.
    pub fn queue_due(&mut self, ask: Ask)
        requires
            old(self).asked <= old(self).queue@.len(),
        ensures
            final(self).queue@ == old(self).queue@.insert(old(self).asked as int, ask),
            final(self).asked == old(self).asked,
            final(self).spent == old(self).spent,
    {
        self.queue.insert(self.asked, ask);
    }

    /// One step of the pass, as [`stepped`] reads: where it stands next,
    /// and what it does.
    pub fn step(self, event: PassEvent, limited: bool) -> (r: (PassState, PassAction))
        ensures
            ({
                let s = stepped(self.queue@, self.asked as int, self.spent.keys(), event, limited);
                &&& r.0.queue@ == s.0
                &&& r.0.asked == s.1
                &&& r.0.spent.keys() == s.2
                &&& r.1 == s.3
            }),
    {
        let mut next = self;
        let at_end = if limited {
            PassAction::Settle
        } else {
            PassAction::FindDue
        };
        let waiting = next.asked < next.queue.len();
        let action = match event {
            PassEvent::Ready(cancelled) => {
                if waiting {
                    if cancelled {
                        PassAction::Stop
                    } else {
                        PassAction::Lift
                    }
                } else {
                    at_end
                }
            },
            PassEvent::Lifted => {
                if waiting {
                    let at = next.asked;
                    let seek: Option<Seek> = match &next.queue[at] {
                        Ask::Album(album) => Some(Seek::Album(album.id)),
                        Ask::Track(_) => None,
                        Ask::Artist(id) => Some(Seek::Artist(*id)),
                    };
                    match seek {
                        Some(seek) => next.spent.spend(seek),
                        None => {},
                    }
                    next.asked = at + 1;
                    PassAction::Ask(at)
                } else {
                    at_end
                }
            },
            PassEvent::Due(artists) => {
                let ghost before = next.queue@;
                let born = born_in_the_pass(artists, &next.spent, limited);
                let mut i: usize = 0;
                while i < born.len()
                    invariant
                        i <= born@.len(),
                        next.queue@ == before + artist_asks(born@.take(i as int)),
                        next.asked == self.asked,
                        next.spent == self.spent,
                    decreases born@.len() - i,
                {
                    assert(born@.take(i + 1) =~= born@.take(i as int).push(born@[i as int]));
                    assert(artist_asks(born@.take(i + 1)) =~= artist_asks(born@.take(i as int)).push(
                        Ask::Artist(born@[i as int]),
                    ));
                    next.queue.push(Ask::Artist(born[i]));
                    i = i + 1;
                }
                assert(born@.take(i as int) =~= born@);
                if born.len() == 0 {
                    assert(next.queue@ =~= before);
                    PassAction::Settle
                } else {
                    PassAction::GoOn
                }
            },
        };
        (next, action)
    }
}

} // verus!
