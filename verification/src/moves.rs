//! Files that moved while the catalog was not looking: a file gone from
//! where it was is followed to a file that arrived, where the two are the
//! only ones alike.
use vstd::prelude::*;

use crate::hashed::{
    likeness_key_view, likenesses_of, no_likenesses, push_alike, rows_held, take_alike,
    LikenessKey,
};

verus! {

/// What two files must share to be taken for one that moved: size, length,
/// codec, and the title and artist their tags name.
#[derive(Clone, Debug, PartialEq, Eq, Hash)]
pub struct Likeness {
    pub size: i64,
    pub duration: Option<i64>,
    pub codec: i64,
    pub title: Option<String>,
    pub artist: Option<String>,
}

/// A file the catalog held or found: its path, its root, its album, and
/// its likeness.
#[derive(Clone, Debug, PartialEq, Eq)]
pub struct Row {
    pub path: String,
    pub root: Option<i64>,
    pub album: Option<i64>,
    pub likeness: Likeness,
}

/// A file gone from where it was, and the file it moved to.
#[derive(Clone, Debug, PartialEq, Eq)]
pub struct Paired {
    pub from: Row,
    pub to: Row,
}

/// A likeness by what it holds.
pub open spec fn likeness_seen(l: Likeness) -> (i64, Option<i64>, i64, Option<Seq<char>>, Option<Seq<char>>) {
    (
        l.size,
        l.duration,
        l.codec,
        match l.title {
            Some(t) => Some(t@),
            None => None,
        },
        match l.artist {
            Some(t) => Some(t@),
            None => None,
        },
    )
}

/// The rows alike in a likeness, in order.
pub open spec fn alike(
    rows: Seq<Row>,
    l: (i64, Option<i64>, i64, Option<Seq<char>>, Option<Seq<char>>),
) -> Seq<Row>
    decreases rows.len(),
{
    if rows.len() == 0 {
        seq![]
    } else {
        alike(rows.drop_last(), l) + if likeness_seen(rows.last().likeness) == l {
            seq![rows.last()]
        } else {
            seq![]
        }
    }
}

/// Whether a likeness is one only one gone row and only one arrived row
/// share.
pub open spec fn follows(
    gone: Seq<Row>,
    arrived: Seq<Row>,
    l: (i64, Option<i64>, i64, Option<Seq<char>>, Option<Seq<char>>),
) -> bool {
    alike(gone, l).len() == 1 && alike(arrived, l).len() == 1
}

fn text_copy(o: &Option<String>) -> (r: Option<String>)
    ensures
        r == *o,
{
    match o {
        Some(t) => Some(t.clone()),
        None => None,
    }
}

fn key_of(l: &Likeness) -> (r: LikenessKey)
    ensures
        likeness_key_view(r) == likeness_seen(*l),
{
    (l.size, l.duration, l.codec, text_copy(&l.title), text_copy(&l.artist))
}

proof fn lemma_alike_push(
    rows: Seq<Row>,
    row: Row,
    l: (i64, Option<i64>, i64, Option<Seq<char>>, Option<Seq<char>>),
)
    ensures
        alike(rows.push(row), l) == alike(rows, l) + if likeness_seen(row.likeness) == l {
            seq![row]
        } else {
            seq![]
        },
{
    assert(rows.push(row).drop_last() =~= rows);
}

/// Gathers rows by likeness: each likeness any row has, with the rows
/// alike in it, in order.
fn gathered(rows: Vec<Row>) -> (r: crate::hashed::RowsByLikeness)
    ensures
        forall|l| #[trigger]
            rows_held(r).contains_key(l) ==> rows_held(r)[l] == alike(rows@, l) && alike(
                rows@,
                l,
            ).len() > 0,
        forall|l| !rows_held(r).contains_key(l) ==> #[trigger] alike(rows@, l) == Seq::<Row>::empty(),
{
    let ghost all = rows@;
    let n = rows.len();
    let mut map = no_likenesses();
    let mut rest = rows;
    let mut k: usize = 0;
    while rest.len() > 0
        invariant
            k + rest@.len() == n,
            all.len() == n,
            rest@ == all.subrange(k as int, n as int),
            forall|l| #[trigger]
                rows_held(map).contains_key(l) ==> rows_held(map)[l] == alike(
                    all.subrange(0, k as int),
                    l,
                ) && alike(all.subrange(0, k as int), l).len() > 0,
            forall|l|
                !rows_held(map).contains_key(l) ==> #[trigger] alike(all.subrange(0, k as int), l)
                    == Seq::<Row>::empty(),
        decreases rest@.len(),
    {
        let row = rest.remove(0);
        assert(row == all[k as int]);
        let key = key_of(&row.likeness);
        let ghost before = rows_held(map);
        let ghost seen = likeness_seen(row.likeness);
        push_alike(&mut map, key, row);
        proof {
            assert(all.subrange(0, k + 1) =~= all.subrange(0, k as int).push(all[k as int]));
            assert forall|l| #[trigger] rows_held(map).contains_key(l) implies rows_held(map)[l]
                == alike(all.subrange(0, k + 1), l) && alike(all.subrange(0, k + 1), l).len()
                > 0 by {
                lemma_alike_push(all.subrange(0, k as int), all[k as int], l);
            }
            assert forall|l| !rows_held(map).contains_key(l) implies #[trigger] alike(
                all.subrange(0, k + 1),
                l,
            ) == Seq::<Row>::empty() by {
                lemma_alike_push(all.subrange(0, k as int), all[k as int], l);
            }
        }
        k = k + 1;
        assert(rest@ =~= all.subrange(k as int, n as int));
    }
    assert(all.subrange(0, k as int) =~= all);
    map
}

/// Each file gone from where it was, with the file it moved to: only
/// where the two are the only gone file and the only arrived file alike,
/// each such pair once, in an order the map they are gathered in leaves
/// open.
pub fn pairs(gone: Vec<Row>, arrived: Vec<Row>) -> (r: Vec<Paired>)
    ensures
        forall|i: int|
            0 <= i < r@.len() ==> follows(gone@, arrived@, likeness_seen(#[trigger] r@[i].from.likeness))
                && r@[i].from == alike(gone@, likeness_seen(r@[i].from.likeness))[0] && r@[i].to
                == alike(arrived@, likeness_seen(r@[i].from.likeness))[0],
        forall|l| #[trigger]
            follows(gone@, arrived@, l) ==> exists|i: int|
                0 <= i < r@.len() && likeness_seen(#[trigger] r@[i].from.likeness) == l,
        forall|i: int, j: int|
            0 <= i < r@.len() && 0 <= j < r@.len() && i != j ==> likeness_seen(
                #[trigger] r@[i].from.likeness,
            ) != likeness_seen(#[trigger] r@[j].from.likeness),
{
    let ghost gs = gone@;
    let ghost ars = arrived@;
    let left = gathered(gone);
    let mut came = gathered(arrived);
    let ghost held_left = rows_held(left);
    let ghost came0 = rows_held(came);
    let entries = likenesses_of(left);
    assert(exists|keys: Seq<(i64, Option<i64>, i64, Option<Seq<char>>, Option<Seq<char>>)>|
        #![trigger keys.len()]
        keys.len() == entries@.len() && keys.no_duplicates() && keys.to_set() == rows_held(
            left,
        ).dom() && forall|i: int|
            0 <= i < keys.len() ==> likeness_key_view(#[trigger] entries@[i].0) == keys[i]
                && entries@[i].1@ == rows_held(left)[keys[i]]);
    let ghost keys = choose|keys: Seq<(i64, Option<i64>, i64, Option<Seq<char>>, Option<Seq<char>>)>|
        #![trigger keys.len()]
        keys.len() == entries@.len() && keys.no_duplicates() && keys.to_set() == rows_held(
            left,
        ).dom() && forall|i: int|
            0 <= i < keys.len() ==> likeness_key_view(#[trigger] entries@[i].0) == keys[i]
                && entries@[i].1@ == rows_held(left)[keys[i]];
    let n = entries.len();
    let mut paired: Vec<Paired> = Vec::new();
    let ghost mut from_key: Seq<int> = seq![];
    let mut rest = entries;
    let mut k: usize = 0;
    while rest.len() > 0
        invariant
            k + rest@.len() == n,
            keys.len() == n,
            keys.no_duplicates(),
            keys.to_set() == held_left.dom(),
            forall|l| #[trigger]
                held_left.contains_key(l) ==> held_left[l] == alike(gs, l) && alike(gs, l).len()
                    > 0,
            forall|l| !held_left.contains_key(l) ==> #[trigger] alike(gs, l) == Seq::<Row>::empty(),
            forall|l| #[trigger]
                came0.contains_key(l) ==> came0[l] == alike(ars, l),
            forall|l| !came0.contains_key(l) ==> #[trigger] alike(ars, l) == Seq::<Row>::empty(),
            forall|i: int|
                0 <= i < rest@.len() ==> likeness_key_view(#[trigger] rest@[i].0) == keys[k + i]
                    && rest@[i].1@ == held_left[keys[k + i]],
            forall|l| #[trigger]
                rows_held(came).contains_key(l) ==> came0.contains_key(l) && rows_held(came)[l]
                    == came0[l],
            forall|i: int| k <= i < n ==> came0.contains_key(#[trigger] keys[i]) ==> rows_held(
                came,
            ).contains_key(keys[i]),
            from_key.len() == paired@.len(),
            forall|i: int|
                0 <= i < paired@.len() ==> 0 <= #[trigger] from_key[i] < k && likeness_seen(
                    paired@[i].from.likeness,
                ) == keys[from_key[i]] && follows(gs, ars, keys[from_key[i]]) && paired@[i].from
                    == alike(gs, keys[from_key[i]])[0] && paired@[i].to == alike(
                    ars,
                    keys[from_key[i]],
                )[0],
            forall|i: int, j: int|
                0 <= i < paired@.len() && 0 <= j < paired@.len() && i != j ==> #[trigger] from_key[i]
                    != #[trigger] from_key[j],
            forall|m: int|
                0 <= m < k && #[trigger] follows(gs, ars, keys[m]) ==> exists|i: int|
                    0 <= i < paired@.len() && from_key[i] == m,
        decreases rest@.len(),
    {
        let ghost fk0 = from_key;
        let ghost p0 = paired@;
        let (key, mut from) = rest.remove(0);
        let ghost l = keys[k as int];
        assert(likeness_key_view(key) == l);
        assert(held_left.contains_key(l)) by {
            assert(keys.to_set().contains(keys[k as int]));
        }
        let ghost came_before = rows_held(came);
        let taken = take_alike(&mut came, &key);
        proof {
            assert forall|m: int| k + 1 <= m < n implies came0.contains_key(#[trigger] keys[m])
                ==> rows_held(came).contains_key(keys[m]) by {
                assert(keys[m] != keys[k as int]);
            }
        }
        let ghost mut pushed = false;
        if let Some(mut to) = taken {
            proof {
                assert(came0.contains_key(l));
            }
            if from.len() == 1 && to.len() == 1 {
                let f = from.pop();
                let t = to.pop();
                if let (Some(f), Some(t)) = (f, t) {
                    paired.push(Paired { from: f, to: t });
                    proof {
                        assert(alike(gs, l)[0] == f);
                        assert(likeness_seen(f.likeness) == l) by {
                            lemma_alike_member(gs, l, 0);
                        }
                        from_key = from_key.push(k as int);
                        pushed = true;
                    }
                }
            }
        } else {
            proof {
                assert(!came0.contains_key(l));
            }
        }
        proof {
            if follows(gs, ars, l) {
                assert(came_before.contains_key(l));
                assert(pushed);
            }
            assert forall|m: int|
                0 <= m < k + 1 && #[trigger] follows(gs, ars, keys[m]) implies exists|i: int|
                0 <= i < paired@.len() && from_key[i] == m by {
                if m == k {
                    assert(from_key[from_key.len() - 1] == k);
                } else {
                    let i = choose|i: int| 0 <= i < p0.len() && fk0[i] == m;
                    assert(from_key[i] == m);
                }
            }
        }
        k = k + 1;
    }
    proof {
        assert forall|i: int| 0 <= i < paired@.len() implies follows(
            gs,
            ars,
            likeness_seen(#[trigger] paired@[i].from.likeness),
        ) && paired@[i].from == alike(gs, likeness_seen(paired@[i].from.likeness))[0]
            && paired@[i].to == alike(ars, likeness_seen(paired@[i].from.likeness))[0] by {
            let m = from_key[i];
            assert(likeness_seen(paired@[i].from.likeness) == keys[m]);
        }
        assert forall|l| #[trigger] follows(gs, ars, l) implies exists|i: int|
            0 <= i < paired@.len() && likeness_seen(#[trigger] paired@[i].from.likeness) == l by {
            assert(held_left.contains_key(l));
            assert(keys.to_set().contains(l));
            let m = choose|m: int| 0 <= m < keys.len() && keys[m] == l;
            assert(follows(gs, ars, keys[m]));
            let i = choose|i: int| 0 <= i < paired@.len() && from_key[i] == m;
            assert(likeness_seen(paired@[i].from.likeness) == l);
        }
        assert forall|i: int, j: int|
            0 <= i < paired@.len() && 0 <= j < paired@.len() && i != j implies likeness_seen(
            #[trigger] paired@[i].from.likeness,
        ) != likeness_seen(#[trigger] paired@[j].from.likeness) by {
            assert(from_key[i] != from_key[j]);
        }
    }
    paired
}

proof fn lemma_alike_member(
    rows: Seq<Row>,
    l: (i64, Option<i64>, i64, Option<Seq<char>>, Option<Seq<char>>),
    i: int,
)
    requires
        0 <= i < alike(rows, l).len(),
    ensures
        likeness_seen(alike(rows, l)[i].likeness) == l,
    decreases rows.len(),
{
    if rows.len() > 0 {
        let before = alike(rows.drop_last(), l);
        if i < before.len() {
            lemma_alike_member(rows.drop_last(), l, i);
        }
    }
}

} // verus!
