//! What the fingerprinters answer, and how their answers are weighed: they
//! are asked in turn, and the first that recognises anything is taken.
use vstd::prelude::*;

use crate::reference::RecordingMatch;

verus! {

/// What asking the fingerprinters found: the recordings the first to
/// recognise anything named, and whether any of them refused.
#[derive(Clone, Debug, PartialEq, Eq)]
pub struct Recognition {
    pub matches: Vec<RecordingMatch>,
    pub refused: bool,
}

impl Default for Recognition {
    /// Nothing recognised, and nothing refused.
    fn default() -> (r: Recognition)
        ensures
            r.matches@.len() == 0,
            !r.refused,
    {
        Recognition { matches: Vec::new(), refused: false }
    }
}

/// What one fingerprinter answered.
#[derive(Clone, Debug, PartialEq, Eq)]
pub enum Printed {
    Nothing,
    Recognised(Vec<RecordingMatch>),
}

/// Where asking stands after one more answer: done, with what was
/// recognised, or still asking, with whether any has refused so far.
#[derive(Clone, Debug, PartialEq, Eq)]
pub enum Heard {
    Done(Recognition),
    Asking { refused: bool },
}

/// Whether an answer recognises anything; `None` stands for a
/// fingerprinter that refused.
pub open spec fn recognises(answer: Option<Printed>) -> bool {
    match answer {
        Some(Printed::Recognised(found)) => found@.len() > 0,
        _ => false,
    }
}

/// Weighs one more answer: one that recognises anything ends the asking
/// with what it found, and nothing refused; any other keeps asking, and a
/// refusal (`None`) is remembered.
pub fn after_answer(refused: bool, answer: Option<Printed>) -> (r: Heard)
    ensures
        match answer {
            Some(Printed::Recognised(found)) => if found@.len() > 0 {
                r == Heard::Done(Recognition { matches: found, refused: false })
            } else {
                r == (Heard::Asking { refused })
            },
            Some(Printed::Nothing) => r == (Heard::Asking { refused }),
            None => r == (Heard::Asking { refused: true }),
        },
{
    match answer {
        Some(Printed::Recognised(found)) => {
            if found.len() > 0 {
                Heard::Done(Recognition { matches: found, refused: false })
            } else {
                Heard::Asking { refused }
            }
        },
        Some(Printed::Nothing) => Heard::Asking { refused },
        None => Heard::Asking { refused: true },
    }
}

/// The first answer, from `from` on, that recognises anything.
pub open spec fn first_recognising(answers: Seq<Option<Printed>>, from: int) -> Option<int>
    decreases answers.len() - from,
{
    if from < 0 || from >= answers.len() {
        None
    } else if recognises(answers[from]) {
        Some(from)
    } else {
        first_recognising(answers, from + 1)
    }
}

/// Whether an answer before `upto` refused.
pub open spec fn refused_before(answers: Seq<Option<Printed>>, upto: int) -> bool {
    exists|i: int| 0 <= i < upto && i < answers.len() && #[trigger] answers[i] is None
}

proof fn lemma_first_recognising(answers: Seq<Option<Printed>>, from: int)
    requires
        0 <= from,
    ensures
        match first_recognising(answers, from) {
            Some(i) => from <= i < answers.len() && recognises(answers[i]) && forall|j: int|
                from <= j < i ==> !recognises(#[trigger] answers[j]),
            None => forall|j: int| from <= j < answers.len() ==> !recognises(#[trigger] answers[j]),
        },
    decreases answers.len() - from,
{
    if from < answers.len() {
        lemma_first_recognising(answers, from + 1);
    }
}

/// What the fingerprinters' answers, in the order they were asked, come
/// to: the first that recognises anything, with nothing refused; where
/// none does, nothing, and whether any refused.
pub fn recognition_of(answers: Vec<Option<Printed>>) -> (r: Recognition)
    ensures
        match first_recognising(answers@, 0) {
            Some(i) => answers@[i] matches Some(Printed::Recognised(found)) && r == (Recognition {
                matches: found,
                refused: false,
            }),
            None => r.matches@.len() == 0 && r.refused == refused_before(
                answers@,
                answers@.len() as int,
            ),
        },
{
    let ghost all = answers@;
    proof {
        lemma_first_recognising(all, 0);
    }
    let n = answers.len();
    let mut refused = false;
    let mut rest = answers;
    let mut k: usize = 0;
    while rest.len() > 0
        invariant
            k + rest@.len() == all.len(),
            all.len() == n,
            all == answers@,
            rest@ == all.subrange(k as int, all.len() as int),
            forall|j: int| 0 <= j < k ==> !recognises(#[trigger] all[j]),
            refused == refused_before(all, k as int),
        decreases rest@.len(),
    {
        let answer = rest.remove(0);
        assert(answer == all[k as int]);
        let ghost was = refused;
        match after_answer(refused, answer) {
            Heard::Done(found) => {
                proof {
                    lemma_first_recognising(all, 0);
                    assert(recognises(all[k as int]));
                    match first_recognising(all, 0) {
                        Some(i) => {
                            if i < k {
                                assert(!recognises(all[i]));
                            } else if i > k {
                                assert(!recognises(all[k as int]));
                            }
                        },
                        None => {
                            assert(!recognises(all[k as int]));
                        },
                    }
                }
                return found;
            },
            Heard::Asking { refused: now } => {
                refused = now;
                proof {
                    if all[k as int] is None {
                        assert(refused_before(all, k + 1));
                    } else if was {
                        let i = choose|i: int| 0 <= i < k && i < all.len() && #[trigger] all[i] is None;
                        assert(refused_before(all, k + 1));
                    } else {
                        assert forall|i: int| 0 <= i < k + 1 && i < all.len() implies !(
                        #[trigger] all[i] is None) by {
                            if i < k && all[i] is None {
                                assert(refused_before(all, k as int));
                            }
                        }
                    }
                }
            },
        }
        k = k + 1;
        assert(rest@ =~= all.subrange(k as int, all.len() as int));
    }
    proof {
        if first_recognising(all, 0) is Some {
            let i = first_recognising(all, 0)->0;
            assert(!recognises(all[i]));
        }
    }
    Recognition { matches: Vec::new(), refused }
}

/// The name of the stand-in that is asked when no fingerprinter is
/// registered, and that recognises nothing.
pub fn unprinted() -> (r: &'static str)
    ensures
        r@ == "unprinted"@,
{
    proof {
        reveal_strlit("unprinted");
    }
    "unprinted"
}

/// The names held with every one equal to `name` taken out.
pub open spec fn without_name(names: Seq<Seq<char>>, name: Seq<char>) -> Seq<Seq<char>>
    decreases names.len(),
{
    if names.len() == 0 {
        seq![]
    } else {
        without_name(names.drop_last(), name) + if names.last() == name {
            seq![]
        } else {
            seq![names.last()]
        }
    }
}

proof fn lemma_without_name(names: Seq<Seq<char>>, name: Seq<char>)
    ensures
        !without_name(names, name).contains(name),
        forall|x: Seq<char>| #[trigger] without_name(names, name).contains(x) ==> names.contains(x),
        names.no_duplicates() ==> without_name(names, name).no_duplicates(),
    decreases names.len(),
{
    if names.len() > 0 {
        let rest = names.drop_last();
        lemma_without_name(rest, name);
        let w = without_name(names, name);
        let wr = without_name(rest, name);
        assert forall|x: Seq<char>| #[trigger] w.contains(x) implies names.contains(x) by {
            let i = choose|i: int| 0 <= i < w.len() && w[i] == x;
            if i < wr.len() {
                assert(wr[i] == x);
                assert(wr.contains(x));
                let j = choose|j: int| 0 <= j < rest.len() && rest[j] == x;
                assert(names[j] == x);
            } else {
                assert(names[names.len() - 1] == x);
            }
        }
        if w.contains(name) {
            let i = choose|i: int| 0 <= i < w.len() && w[i] == name;
            if i < wr.len() {
                assert(wr[i] == name);
                assert(wr.contains(name));
            }
        }
        if names.no_duplicates() {
            assert(rest.no_duplicates());
            if names.last() != name {
                assert(!rest.contains(names.last()));
                assert(!wr.contains(names.last()));
                assert forall|i: int, j: int| 0 <= i < w.len() && 0 <= j < w.len() && i != j implies w[i]
                    != w[j] by {
                    if i == w.len() - 1 && j < wr.len() {
                        assert(wr[j] == w[j]);
                        assert(wr.contains(w[j]));
                    } else if j == w.len() - 1 && i < wr.len() {
                        assert(wr[i] == w[i]);
                        assert(wr.contains(w[i]));
                    }
                }
            } else {
                assert(w =~= wr);
            }
        }
    }
}

/// The fingerprinters a library asks, each by the name of the source it
/// asks, in the order they are asked.
pub struct Fingerprinters<P> {
    printers: Vec<(String, P)>,
}

/// The names of a list of printers.
pub open spec fn names_of<P>(printers: Seq<(String, P)>) -> Seq<Seq<char>> {
    printers.map_values(|p: (String, P)| p.0@)
}

impl<P> Fingerprinters<P> {
    /// The printers held, in the order they are asked.
    pub closed spec fn held(self) -> Seq<(String, P)> {
        self.printers@
    }

    /// The names of the sources asked, in order.
    pub open spec fn names_held(self) -> Seq<Seq<char>> {
        names_of(self.held())
    }

    /// The stand-in alone, under the name [`unprinted`] gives.
    pub fn none(stub: P) -> (r: Self)
        ensures
            r.held().len() == 1,
            r.held()[0].1 == stub,
            r.names_held() == seq!["unprinted"@],
    {
        let mut printers: Vec<(String, P)> = Vec::new();
        printers.push((unprinted().to_owned(), stub));
        let r = Fingerprinters { printers };
        assert(r.names_held() =~= seq!["unprinted"@]);
        r
    }

    /// Registers a printer under its source's name: one held under the
    /// same name gives way, and the newest is asked last.
    pub fn and(self, name: String, printer: P) -> (r: Self)
        ensures
            r.names_held() == without_name(self.names_held(), name@).push(name@),
            r.held().last().1 == printer,
    {
        let ghost before = self.printers@;
        let mut rest = self.printers;
        let mut kept: Vec<(String, P)> = Vec::new();
        let mut k: usize = 0;
        let n = rest.len();
        while rest.len() > 0
            invariant
                k + rest@.len() == before.len(),
                before.len() == n,
                rest@ == before.subrange(k as int, before.len() as int),
                names_of(kept@) == without_name(names_of(before.subrange(0, k as int)), name@),
            decreases rest@.len(),
        {
            let held = rest.remove(0);
            assert(held == before[k as int]);
            assert(names_of(before.subrange(0, k + 1)).drop_last() =~= names_of(
                before.subrange(0, k as int),
            ));
            let ghost was = kept@;
            if held.0 != name {
                kept.push(held);
                assert(names_of(kept@) =~= names_of(was).push(before[k as int].0@));
            }
            k = k + 1;
            assert(rest@ =~= before.subrange(k as int, before.len() as int));
        }
        assert(before.subrange(0, k as int) =~= before);
        let ghost was = kept@;
        kept.push((name, printer));
        assert(names_of(kept@) =~= names_of(was).push(name@));
        Fingerprinters { printers: kept }
    }

    /// The names of the sources asked, in order.
    pub fn names(&self) -> (r: Vec<String>)
        ensures
            r@.map_values(|s: String| s@) == self.names_held(),
    {
        let mut names: Vec<String> = Vec::new();
        let mut i: usize = 0;
        while i < self.printers.len()
            invariant
                i <= self.printers@.len(),
                names@.map_values(|s: String| s@) == names_of(self.printers@.subrange(0, i as int)),
            decreases self.printers@.len() - i,
        {
            let ghost was = names@;
            names.push(self.printers[i].0.clone());
            assert(names_of(self.printers@.subrange(0, i + 1)) =~= names_of(
                self.printers@.subrange(0, i as int),
            ).push(self.printers@[i as int].0@));
            assert(names@.map_values(|s: String| s@) =~= was.map_values(|s: String| s@).push(
                self.printers@[i as int].0@,
            ));
            i = i + 1;
        }
        assert(self.printers@.subrange(0, i as int) =~= self.printers@);
        names
    }

    /// Whether any source but the stand-in is asked.
    pub fn has_a_source(&self) -> (r: bool)
        ensures
            r == exists|i: int|
                0 <= i < self.names_held().len() && #[trigger] self.names_held()[i] != "unprinted"@,
    {
        let stub = unprinted().to_owned();
        let mut i: usize = 0;
        while i < self.printers.len()
            invariant
                i <= self.printers@.len(),
                stub@ == "unprinted"@,
                forall|k: int| 0 <= k < i ==> #[trigger] self.names_held()[k] == "unprinted"@,
            decreases self.printers@.len() - i,
        {
            assert(self.names_held()[i as int] == self.printers@[i as int].0@);
            if self.printers[i].0 != stub {
                return true;
            }
            i = i + 1;
        }
        false
    }

    /// The printers, each with the name of its source, in the order they
    /// are asked.
    pub fn printers(&self) -> (r: &[(String, P)])
        ensures
            r@ == self.held(),
    {
        self.printers.as_slice()
    }
}

/// However often a source registers, it is asked once: registering keeps
/// the names free of repeats, and the newest registered is asked last.
pub proof fn a_name_registers_once(names: Seq<Seq<char>>, name: Seq<char>)
    requires
        names.no_duplicates(),
    ensures
        without_name(names, name).push(name).no_duplicates(),
        without_name(names, name).push(name).last() == name,
{
    lemma_without_name(names, name);
    let w = without_name(names, name);
    assert forall|i: int, j: int|
        0 <= i < w.push(name).len() && 0 <= j < w.push(name).len() && i != j implies w.push(
        name,
    )[i] != w.push(name)[j] by {
        if i == w.len() {
            assert(w.contains(w[j]));
        } else if j == w.len() {
            assert(w.contains(w[i]));
        }
    }
}

} // verus!
