//! A credit read as the names its joins separate.
use vstd::prelude::*;
use vstd::string::StrSliceExecFns;

use crate::fold::{folded_letters, folded_letters_of};
use crate::text::{
    chars_of, find, find_exec, lowered, lowered_ascii, slice_of, trim, trim_range,
};

verus! {

broadcast use vstd::string::group_string_axioms;

/// The words that join the names in a credit, as they are looked for in the
/// credit with its ASCII capitals lowered.
pub open spec fn joins() -> Seq<Seq<char>> {
    seq![
        " & "@,
        " and "@,
        ", "@,
        "; "@,
        " / "@,
        " + "@,
        " x "@,
        " × "@,
        " with "@,
        " feat. "@,
        " feat "@,
        " ft. "@,
        " ft "@,
        " featuring "@,
        " vs. "@,
        " vs "@,
    ]
}

pub const JOIN_COUNT: usize = 16;

fn join_text(k: usize) -> (r: &'static str)
    requires
        k < 16,
    ensures
        r@ == joins()[k as int],
{
    match k {
        0 => " & ",
        1 => " and ",
        2 => ", ",
        3 => "; ",
        4 => " / ",
        5 => " + ",
        6 => " x ",
        7 => " × ",
        8 => " with ",
        9 => " feat. ",
        10 => " feat ",
        11 => " ft. ",
        12 => " ft ",
        13 => " featuring ",
        14 => " vs. ",
        _ => " vs ",
    }
}

/// Among the first `k` joins, the one that comes first in `low`, and of two
/// that start at one place the longer, with the earlier of the list kept
/// where nothing tells them apart: where it stands and which join it is.
pub open spec fn best_join(low: Seq<char>, k: nat) -> Option<(int, int)>
    decreases k,
{
    if k == 0 {
        None
    } else {
        let prev = best_join(low, (k - 1) as nat);
        let j = k - 1;
        match find(low, joins()[j]) {
            None => prev,
            Some(at) => match prev {
                None => Some((at, j)),
                Some((held_at, held)) => if at < held_at || (at == held_at && joins()[j].len()
                    > joins()[held].len()) {
                    Some((at, j))
                } else {
                    prev
                },
            },
        }
    }
}

/// The next join in a credit: where it stands and which join it is.
pub open spec fn next_join(s: Seq<char>) -> Option<(int, int)> {
    best_join(lowered(s), 16)
}

/// The names a credit's joins separate, trimmed, empty ones included.
pub open spec fn members_raw(s: Seq<char>) -> Seq<Seq<char>>
    decreases s.len(),
{
    match next_join(s) {
        Some((at, j)) => if 0 <= j < 16 && joins()[j].len() > 0 && 0 <= at && at
            + joins()[j].len() <= s.len() {
            seq![trim(s.subrange(0, at))] + members_raw(
                s.subrange(at + joins()[j].len(), s.len() as int),
            )
        } else {
            seq![trim(s)]
        },
        None => seq![trim(s)],
    }
}

/// The names that are not empty, in order.
pub open spec fn kept_names(ms: Seq<Seq<char>>) -> Seq<Seq<char>>
    decreases ms.len(),
{
    if ms.len() == 0 {
        seq![]
    } else {
        kept_names(ms.drop_last()) + (if ms.last().len() > 0 {
            seq![ms.last()]
        } else {
            seq![]
        })
    }
}

/// The names a credit is read as.
pub open spec fn members(s: Seq<char>) -> Seq<Seq<char>> {
    kept_names(members_raw(s))
}

use crate::text::{find_from, lemma_find_bounds, stands_at};

proof fn lemma_best_join_bounds(low: Seq<char>, k: nat)
    requires
        k <= 16,
    ensures
        best_join(low, k) matches Some((at, j)) ==> 0 <= j < k && 0 <= at && at
            + joins()[j].len() <= low.len(),
    decreases k,
{
    if k > 0 {
        lemma_best_join_bounds(low, (k - 1) as nat);
        lemma_find_bounds(low, joins()[k - 1], 0);
    }
}

/// The next join in the lowered text, found as `best_join` finds it.
fn next_join_exec(low: &[char]) -> (r: Option<(usize, usize)>)
    ensures
        r matches Some((at, j)) ==> best_join(low@, 16) == Some((at as int, j as int)),
        r is None ==> best_join(low@, 16) is None,
{
    let mut best: Option<(usize, usize)> = None;
    let mut best_len: usize = 0;
    let mut k: usize = 0;
    while k < JOIN_COUNT
        invariant
            k <= 16,
            best matches Some((at, j)) ==> best_join(low@, k as nat) == Some((at as int, j as int))
                && best_len == joins()[j as int].len(),
            best is None ==> best_join(low@, k as nat) is None,
        decreases 16 - k,
    {
        let pat = chars_of(join_text(k));
        let found = find_exec(low, &pat);
        match found {
            None => {},
            Some(at) => {
                match best {
                    None => {
                        best = Some((at, k));
                        best_len = pat.len();
                    },
                    Some((held_at, _)) => {
                        if at < held_at || (at == held_at && pat.len() > best_len) {
                            best = Some((at, k));
                            best_len = pat.len();
                        }
                    },
                }
            },
        }
        k = k + 1;
    }
    best
}

/// The names a credit's joins separate, each trimmed, the empty ones left
/// out: "Adam Skorupa & Krzysztof Wierzynkiewicz" is the two of them.
pub fn members_of(credit: &str) -> (r: Vec<&str>)
    ensures
        r@.map_values(|m: &str| m@) == members(credit@),
{
    let all = chars_of(credit);
    let n = all.len();
    let mut raw: Vec<&str> = Vec::new();
    let mut rest: usize = 0;
    assert(all@.subrange(0, n as int) =~= all@);
    loop
        invariant_except_break
            raw@.map_values(|m: &str| m@) + members_raw(all@.subrange(rest as int, n as int))
                == members_raw(credit@),
        invariant
            n == all@.len(),
            all@ == credit@,
            rest <= n,
        ensures
            raw@.map_values(|m: &str| m@) == members_raw(credit@),
        decreases n - rest,
    {
        let tail = slice_of(&all, rest, n);
        let low = lowered_ascii(&tail);
        let ghost t = all@.subrange(rest as int, n as int);
        proof {
            lemma_best_join_bounds(low@, 16);
        }
        assert(low@ == lowered(t));
        let found = next_join_exec(&low);
        let width: usize = match found {
            Some((_, j)) => chars_of(join_text(j)).len(),
            None => 0,
        };
        let joined = match found {
            Some((_, _)) => width > 0,
            None => false,
        };
        if joined {
            let (at, j) = found.unwrap();
            {
                let (a, b) = trim_range(&all, rest, rest + at);
                assert(t.subrange(0, at as int) =~= all@.subrange(rest as int, rest + at));
                let member = credit.substring_char(a, b);
                let ghost before = raw@.map_values(|m: &str| m@);
                raw.push(member);
                assert(raw@.map_values(|m: &str| m@) =~= before.push(member@));
                assert(t.subrange(at + width, t.len() as int) =~= all@.subrange(
                    rest + at + width,
                    n as int,
                ));
                assert(members_raw(t) == seq![trim(t.subrange(0, at as int))] + members_raw(
                    t.subrange(at + width, t.len() as int),
                ));
                assert(before.push(member@) + members_raw(all@.subrange(rest + at + width, n as int))
                    =~= before + members_raw(t));
                rest = rest + at + width;
            }
        } else {
            {
                let (a, b) = trim_range(&all, rest, n);
                let member = credit.substring_char(a, b);
                let ghost before = raw@.map_values(|m: &str| m@);
                raw.push(member);
                assert(raw@.map_values(|m: &str| m@) =~= before.push(member@));
                assert(members_raw(t) == seq![trim(t)]);
                assert(raw@.map_values(|m: &str| m@) =~= members_raw(credit@));
                break ;
            }
        }
    }
    let mut kept: Vec<&str> = Vec::new();
    let mut i: usize = 0;
    let ghost whole = raw@.map_values(|m: &str| m@);
    while i < raw.len()
        invariant
            i <= raw@.len(),
            whole == raw@.map_values(|m: &str| m@),
            whole == members_raw(credit@),
            kept@.map_values(|m: &str| m@) == kept_names(whole.subrange(0, i as int)),
        decreases raw@.len() - i,
    {
        let ghost before = kept@.map_values(|m: &str| m@);
        assert(whole.subrange(0, i + 1).drop_last() =~= whole.subrange(0, i as int));
        let member = raw[i];
        if member.unicode_len() > 0 {
            kept.push(member);
            assert(kept@.map_values(|m: &str| m@) =~= before.push(member@));
        }
        i = i + 1;
        assert(kept@.map_values(|m: &str| m@) =~= kept_names(whole.subrange(0, i as int)));
    }
    assert(whole.subrange(0, raw@.len() as int) =~= whole);
    kept
}


/// The artists the members of a credit are held as, looked over in order:
/// none where a member folds to nothing or to the whole credit, or is held
/// as no artist; else each artist once, in the order first met.
pub open spec fn members_held(
    whole: Seq<char>,
    members: Seq<Seq<char>>,
    artists: Seq<Option<i64>>,
    n: int,
) -> Option<Seq<i64>>
    decreases n,
{
    if n <= 0 {
        Some(seq![])
    } else {
        match members_held(whole, members, artists, n - 1) {
            None => None,
            Some(held) => {
                let key = folded_letters_of(members[n - 1]);
                if key.len() == 0 || key == whole {
                    None
                } else {
                    match artists[n - 1] {
                        None => None,
                        Some(a) => Some(
                            if held.contains(a) {
                                held
                            } else {
                                held.push(a)
                            },
                        ),
                    }
                }
            },
        }
    }
}

/// The artists a credit of several members is credited to, where every
/// member is held as an artist and they are more than one; `artists`
/// answers, for each member in turn, the artist held under its folded
/// name.
pub fn every_member_held(credit: &str, members: &[&str], artists: &[Option<i64>]) -> (r: Option<
    Vec<i64>,
>)
    requires
        artists@.len() == members@.len(),
    ensures
        match members_held(
            folded_letters_of(credit@),
            members@.map_values(|m: &str| m@),
            artists@,
            members@.len() as int,
        ) {
            Some(held) => if held.len() > 1 {
                r matches Some(v) && v@ == held
            } else {
                r is None
            },
            None => r is None,
        },
{
    let ghost ms = members@.map_values(|m: &str| m@);
    let whole = folded_letters(credit);
    let mut held: Vec<i64> = Vec::new();
    let mut i: usize = 0;
    while i < members.len()
        invariant
            i <= members@.len(),
            artists@.len() == members@.len(),
            ms == members@.map_values(|m: &str| m@),
            whole@ == folded_letters_of(credit@),
            members_held(whole@, ms, artists@, i as int) == Some(held@),
        decreases members@.len() - i,
    {
        let key = folded_letters(members[i]);
        assert(ms[i as int] == members@[i as int]@);
        if key.as_str().is_empty() || key == whole {
            proof {
                lemma_members_held_stays_none(whole@, ms, artists@, i + 1, members@.len() as int);
            }
            return None;
        }
        match artists[i] {
            None => {
                proof {
                    lemma_members_held_stays_none(whole@, ms, artists@, i + 1, members@.len() as int);
                }
                return None;
            },
            Some(a) => {
                let mut seen = false;
                let mut k: usize = 0;
                while k < held.len()
                    invariant
                        k <= held@.len(),
                        seen == held@.subrange(0, k as int).contains(a),
                    decreases held@.len() - k,
                {
                    assert(held@.subrange(0, k + 1) =~= held@.subrange(0, k as int).push(held@[k as int]));
                    proof {
                        let s0 = held@.subrange(0, k as int);
                        let s1 = held@.subrange(0, k + 1);
                        if s1.contains(a) && held@[k as int] != a {
                            let j = choose|j: int| 0 <= j < s1.len() && s1[j] == a;
                            assert(s0[j] == a);
                        }
                        if s0.contains(a) {
                            let j = choose|j: int| 0 <= j < s0.len() && s0[j] == a;
                            assert(s1[j] == a);
                        }
                        if held@[k as int] == a {
                            assert(s1[k as int] == a);
                        }
                    }
                    if held[k] == a {
                        seen = true;
                    }
                    k = k + 1;
                }
                assert(held@.subrange(0, k as int) =~= held@);
                if !seen {
                    held.push(a);
                }
            },
        }
        i = i + 1;
    }
    if held.len() > 1 {
        Some(held)
    } else {
        None
    }
}

proof fn lemma_members_held_stays_none(
    whole: Seq<char>,
    members: Seq<Seq<char>>,
    artists: Seq<Option<i64>>,
    n: int,
    m: int,
)
    requires
        members_held(whole, members, artists, n) is None,
        n <= m,
    ensures
        members_held(whole, members, artists, m) is None,
    decreases m - n,
{
    if n < m {
        lemma_members_held_stays_none(whole, members, artists, n, m - 1);
    }
}


proof fn lemma_best_join_found(low: Seq<char>, k: nat, i: int)
    requires
        k <= 16,
        0 <= i < k,
        find(low, joins()[i]) is Some,
    ensures
        best_join(low, k) matches Some((at, _)) && at <= find(low, joins()[i])->0,
    decreases k,
{
    if i < k - 1 {
        lemma_best_join_found(low, (k - 1) as nat, i);
    }
}

proof fn lemma_members_raw_len(s: Seq<char>)
    ensures
        members_raw(s).len() >= 1,
    decreases s.len(),
{
    if let Some((at, j)) = next_join(s) {
        if 0 <= j < 16 && joins()[j].len() > 0 && 0 <= at && at + joins()[j].len() <= s.len() {
            lemma_members_raw_len(s.subrange(at + joins()[j].len(), s.len() as int));
        }
    }
}

/// A credit that holds a join is split there: where the credit, its ASCII
/// capitals lowered, holds any of the joins ` & `, ` and `, `, `, `; `,
/// ` / `, ` + `, ` x `, ` × `, ` with `, ` feat. `, ` feat `, ` ft. `,
/// ` ft `, ` featuring `, ` vs. ` or ` vs `, it is read as two names or
/// more before the empty ones are left out, the first of them what stands
/// before a join no later than that one, trimmed.
pub proof fn a_credit_holding_a_join_is_split(s: Seq<char>, j: Seq<char>)
    requires
        j == " & "@
            || j == " and "@
            || j == ", "@
            || j == "; "@
            || j == " / "@
            || j == " + "@
            || j == " x "@
            || j == " × "@
            || j == " with "@
            || j == " feat. "@
            || j == " feat "@
            || j == " ft. "@
            || j == " ft "@
            || j == " featuring "@
            || j == " vs. "@
            || j == " vs "@,
        find(lowered(s), j) is Some,
    ensures
        members_raw(s).len() >= 2,
        exists|p: int|
            0 <= p <= find(lowered(s), j)->0 && members_raw(s)[0] == trim(
                #[trigger] s.subrange(0, p),
            ),
{
    reveal_strlit(" & ");
    reveal_strlit(" and ");
    reveal_strlit(", ");
    reveal_strlit("; ");
    reveal_strlit(" / ");
    reveal_strlit(" + ");
    reveal_strlit(" x ");
    reveal_strlit(" × ");
    reveal_strlit(" with ");
    reveal_strlit(" feat. ");
    reveal_strlit(" feat ");
    reveal_strlit(" ft. ");
    reveal_strlit(" ft ");
    reveal_strlit(" featuring ");
    reveal_strlit(" vs. ");
    reveal_strlit(" vs ");
    let mut i: int = 0;
    if j == " & "@ {
        assert(joins()[0] == j);
        i = 0;
    }
    else if j == " and "@ {
        assert(joins()[1] == j);
        i = 1;
    }
    else if j == ", "@ {
        assert(joins()[2] == j);
        i = 2;
    }
    else if j == "; "@ {
        assert(joins()[3] == j);
        i = 3;
    }
    else if j == " / "@ {
        assert(joins()[4] == j);
        i = 4;
    }
    else if j == " + "@ {
        assert(joins()[5] == j);
        i = 5;
    }
    else if j == " x "@ {
        assert(joins()[6] == j);
        i = 6;
    }
    else if j == " × "@ {
        assert(joins()[7] == j);
        i = 7;
    }
    else if j == " with "@ {
        assert(joins()[8] == j);
        i = 8;
    }
    else if j == " feat. "@ {
        assert(joins()[9] == j);
        i = 9;
    }
    else if j == " feat "@ {
        assert(joins()[10] == j);
        i = 10;
    }
    else if j == " ft. "@ {
        assert(joins()[11] == j);
        i = 11;
    }
    else if j == " ft "@ {
        assert(joins()[12] == j);
        i = 12;
    }
    else if j == " featuring "@ {
        assert(joins()[13] == j);
        i = 13;
    }
    else if j == " vs. "@ {
        assert(joins()[14] == j);
        i = 14;
    }
    else if j == " vs "@ {
        assert(joins()[15] == j);
        i = 15;
    }
    let low = lowered(s);
    lemma_best_join_found(low, 16, i);
    lemma_best_join_bounds(low, 16);
    assert(low.len() == s.len());
    let (at, k) = next_join(s)->0;
    assert(joins()[k].len() > 0) by {
        assert(joins()[k].len() >= 2);
    }
    let rest = s.subrange(at + joins()[k].len(), s.len() as int);
    lemma_members_raw_len(rest);
    assert(members_raw(s) == seq![trim(s.subrange(0, at))] + members_raw(rest));
    assert(members_raw(s)[0] == trim(s.subrange(0, at)));
}


/// Whether a text is one of the words that join the names in a credit:
/// ` & `, ` and `, `, `, `; `, ` / `, ` + `, ` x `, ` × `, ` with `,
/// ` feat. `, ` feat `, ` ft. `, ` ft `, ` featuring `, ` vs. ` or ` vs `.
pub open spec fn a_join(j: Seq<char>) -> bool {
    j == " & "@
        || j == " and "@
        || j == ", "@
        || j == "; "@
        || j == " / "@
        || j == " + "@
        || j == " x "@
        || j == " × "@
        || j == " with "@
        || j == " feat. "@
        || j == " feat "@
        || j == " ft. "@
        || j == " ft "@
        || j == " featuring "@
        || j == " vs. "@
        || j == " vs "@
}

proof fn lemma_find_stands(text: Seq<char>, pat: Seq<char>, from: int)
    ensures
        find_from(text, pat, from) matches Some(p) ==> stands_at(text, pat, p),
    decreases text.len() + 1 - from,
{
    if !(from < 0 || from + pat.len() > text.len()) && !stands_at(text, pat, from) {
        lemma_find_stands(text, pat, from + 1);
    }
}

proof fn lemma_best_join_none(low: Seq<char>, k: nat)
    requires
        k <= 16,
        forall|i: int| 0 <= i < k ==> #[trigger] find(low, joins()[i]) is None,
    ensures
        best_join(low, k) is None,
    decreases k,
{
    if k > 0 {
        lemma_best_join_none(low, (k - 1) as nat);
    }
}

proof fn lemma_best_join_only(low: Seq<char>, k: nat, at: int, j: Seq<char>)
    requires
        k <= 16,
        forall|i: int|
            0 <= i < k ==> (#[trigger] find(low, joins()[i]) matches Some(p) ==> p == at
                && joins()[i] == j),
    ensures
        best_join(low, k) matches Some((p, i)) ==> p == at && joins()[i] == j,
    decreases k,
{
    if k > 0 {
        lemma_best_join_only(low, (k - 1) as nat, at, j);
    }
}

/// A credit of two names with one join between them is read as those two
/// names: for trimmed names `a` and `b`, each something, and a join `j`,
/// where no join stands in the credit, its ASCII capitals lowered, but `j`
/// where `a` ends, the credit `a`, `j`, `b` is read as `a` and `b`.
pub proof fn two_names_and_a_join_are_read_as_the_two(a: Seq<char>, j: Seq<char>, b: Seq<char>)
    requires
        a.len() > 0,
        b.len() > 0,
        trim(a) == a,
        trim(b) == b,
        a_join(j),
        forall|k: Seq<char>, p: int|
            a_join(k) && #[trigger] stands_at(lowered(a + j + b), k, p) ==> p == a.len() && k == j,
    ensures
        members(a + j + b) == seq![a, b],
{
    reveal_strlit(" & ");
    reveal_strlit(" and ");
    reveal_strlit(", ");
    reveal_strlit("; ");
    reveal_strlit(" / ");
    reveal_strlit(" + ");
    reveal_strlit(" x ");
    reveal_strlit(" × ");
    reveal_strlit(" with ");
    reveal_strlit(" feat. ");
    reveal_strlit(" feat ");
    reveal_strlit(" ft. ");
    reveal_strlit(" ft ");
    reveal_strlit(" featuring ");
    reveal_strlit(" vs. ");
    reveal_strlit(" vs ");
    let s = a + j + b;
    let low = lowered(s);
    assert(lowered(j) =~= j);
    assert(low.subrange(a.len() as int, a.len() + j.len() as int) =~= j);
    assert(stands_at(low, j, a.len() as int));
    let mut i0: int = 0;
    assert forall|i: int|
        0 <= i < 16 implies (#[trigger] find(low, joins()[i]) matches Some(p) ==> p == a.len()
            && joins()[i] == j) by {
        lemma_find_stands(low, joins()[i], 0);
        assert(a_join(joins()[i]));
    }
    if j == " & "@ {
        i0 = 0;
    }
    else if j == " and "@ {
        i0 = 1;
    }
    else if j == ", "@ {
        i0 = 2;
    }
    else if j == "; "@ {
        i0 = 3;
    }
    else if j == " / "@ {
        i0 = 4;
    }
    else if j == " + "@ {
        i0 = 5;
    }
    else if j == " x "@ {
        i0 = 6;
    }
    else if j == " × "@ {
        i0 = 7;
    }
    else if j == " with "@ {
        i0 = 8;
    }
    else if j == " feat. "@ {
        i0 = 9;
    }
    else if j == " feat "@ {
        i0 = 10;
    }
    else if j == " ft. "@ {
        i0 = 11;
    }
    else if j == " ft "@ {
        i0 = 12;
    }
    else if j == " featuring "@ {
        i0 = 13;
    }
    else if j == " vs. "@ {
        i0 = 14;
    }
    else if j == " vs "@ {
        i0 = 15;
    }
    assert(joins()[i0] == j);
    lemma_find_bounds(low, j, 0);
    assert(find(low, j) is Some) by {
        lemma_find_some_at(low, j, 0, a.len() as int);
    }
    lemma_best_join_found(low, 16, i0);
    lemma_best_join_only(low, 16, a.len() as int, j);
    lemma_best_join_bounds(low, 16);
    let (at, k) = next_join(s)->0;
    assert(at == a.len() && joins()[k] == j);
    assert(s.subrange(0, at) =~= a);
    let rest = s.subrange(at + j.len(), s.len() as int);
    assert(rest =~= b);
    assert(members_raw(s) == seq![trim(a)] + members_raw(b));
    let lb = lowered(b);
    assert forall|i: int| 0 <= i < 16 implies #[trigger] find(lb, joins()[i]) is None by {
        lemma_find_stands(lb, joins()[i], 0);
        if let Some(q) = find(lb, joins()[i]) {
            let w = joins()[i];
            assert(a_join(w));
            assert(low.subrange(a.len() + j.len() as int + q, a.len() + j.len() as int + q + w.len()) =~= lb.subrange(
                q,
                q + w.len(),
            ));
            assert(stands_at(low, w, a.len() + j.len() + q));
        }
    }
    lemma_best_join_none(lb, 16);
    assert(members_raw(b) == seq![trim(b)]);
    assert(members_raw(s) =~= seq![a, b]);
    assert(seq![a, b].drop_last() =~= seq![a]);
    assert(seq![a].drop_last() =~= Seq::<Seq<char>>::empty());
    assert(kept_names(Seq::<Seq<char>>::empty()) =~= Seq::<Seq<char>>::empty());
    assert(seq![a].last() == a);
    assert(kept_names(seq![a]) =~= seq![a]);
    assert(seq![a, b].last() == b);
    assert(kept_names(seq![a, b]) =~= seq![a, b]);
}

proof fn lemma_find_some_at(text: Seq<char>, pat: Seq<char>, from: int, q: int)
    requires
        0 <= from <= q,
        stands_at(text, pat, q),
    ensures
        find_from(text, pat, from) matches Some(p) && p <= q,
    decreases q - from,
{
    if !stands_at(text, pat, from) {
        lemma_find_some_at(text, pat, from + 1, q);
    }
}

} // verus!
