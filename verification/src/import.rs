//! What an import pass is asked to do, and the order it works in: the
//! costliest copies first.
use vstd::prelude::*;

verus! {

/// What an import pass is asked to do: the roots it takes files from,
/// whether it takes them or only says what it would take, at most how
/// many it takes, and how many workers take them at once.
#[derive(Clone, Debug, PartialEq, Eq)]
pub struct ImportOptions {
    pub roots: Vec<String>,
    pub apply: bool,
    pub at_most: Option<usize>,
    pub workers: usize,
}

/// The work keeping a file in the vault takes: copied as it is, encoded,
/// or packed; each more than the one before.
#[derive(Clone, Copy, Debug, PartialEq, Eq, Structural, PartialOrd, Ord, Hash)]
pub enum Effort {
    Copied,
    Encoded,
    Packed,
}

/// The rank of an effort, least first.
pub open spec fn effort_rank(e: Effort) -> int {
    match e {
        Effort::Copied => 0,
        Effort::Encoded => 1,
        Effort::Packed => 2,
    }
}

/// Whether one cost is above another: more effort, or as much and more
/// bytes.
pub open spec fn costs_more(a: (Effort, u64), b: (Effort, u64)) -> bool {
    effort_rank(a.0) > effort_rank(b.0) || (a.0 == b.0 && a.1 > b.1)
}

fn costs_more_exec(a: (Effort, u64), b: (Effort, u64)) -> (r: bool)
    ensures
        r == costs_more(a, b),
{
    let ra: u8 = match a.0 {
        Effort::Copied => 0,
        Effort::Encoded => 1,
        Effort::Packed => 2,
    };
    let rb: u8 = match b.0 {
        Effort::Copied => 0,
        Effort::Encoded => 1,
        Effort::Packed => 2,
    };
    ra > rb || (ra == rb && a.1 > b.1)
}

/// Whether an order of the rows runs costliest first, rows of one cost in
/// the order they came in.
pub open spec fn costliest_order(costs: Seq<(Effort, u64)>, order: Seq<usize>) -> bool {
    &&& forall|i: int| 0 <= i < order.len() ==> #[trigger] order[i] < costs.len()
    &&& forall|i: int, j: int|
        0 <= i < j < order.len() ==> !costs_more(costs[#[trigger] order[j] as int], costs[#[trigger] order[i] as int])
    &&& forall|i: int, j: int|
        0 <= i < j < order.len() && costs[#[trigger] order[i] as int] == costs[#[trigger] order[j] as int]
            ==> order[i] < order[j]
}

/// The rows in the order an import works through them: the costliest
/// first, by effort and then by size; rows of one cost in the order they
/// came in. Each row once.
pub fn costliest_first(costs: &[(Effort, u64)]) -> (r: Vec<usize>)
    ensures
        r@.len() == costs@.len(),
        r@.no_duplicates(),
        forall|k: usize| k < costs@.len() ==> #[trigger] r@.contains(k),
        costliest_order(costs@, r@),
{
    let mut order: Vec<usize> = Vec::new();
    let mut k: usize = 0;
    while k < costs.len()
        invariant
            k <= costs@.len(),
            order@.len() == k,
            order@.no_duplicates(),
            forall|i: int| 0 <= i < order@.len() ==> #[trigger] order@[i] < k,
            forall|m: usize| m < k ==> #[trigger] order@.contains(m),
            costliest_order(costs@, order@),
        decreases costs@.len() - k,
    {
        let mut at: usize = 0;
        while at < order.len() && !costs_more_exec(costs[k], costs[order[at]])
            invariant
                at <= order@.len(),
                k < costs@.len(),
                forall|i: int| 0 <= i < order@.len() ==> #[trigger] order@[i] < k,
                forall|i: int| 0 <= i < at ==> !costs_more(costs@[k as int], costs@[#[trigger] order@[i] as int]),
            decreases order@.len() - at,
        {
            at = at + 1;
        }
        let ghost before = order@;
        proof {
            assert forall|i: int| at <= i < before.len() implies !costs_more(
                costs@[#[trigger] before[i] as int],
                costs@[k as int],
            ) by {
                let a = costs@[before[at as int] as int];
                let b = costs@[before[i] as int];
                let c = costs@[k as int];
                assert(costs_more(c, a));
                if i > at {
                    assert(!costs_more(b, a));
                }
            }
        }
        order.insert(at, k);
        proof {
            let now = order@;
            assert(now =~= before.take(at as int) + seq![k] + before.skip(at as int));
            assert forall|i: int| 0 <= i < now.len() implies #[trigger] now[i] < k + 1 by {
                if i < at {
                    assert(now[i] == before[i]);
                } else if i > at {
                    assert(now[i] == before[i - 1]);
                }
            }
            assert forall|m: usize| m < k + 1 implies #[trigger] now.contains(m) by {
                if m == k {
                    assert(now[at as int] == k);
                } else {
                    assert(before.contains(m));
                    let i = choose|i: int| 0 <= i < before.len() && before[i] == m;
                    if i < at {
                        assert(now[i] == before[i]);
                    } else {
                        assert(now[i + 1] == before[i]);
                    }
                }
            }
            assert forall|i: int, j: int| 0 <= i < j < now.len() implies now[i] != now[j] by {
                if i < at && j < at {
                    assert(now[i] == before[i] && now[j] == before[j]);
                } else if i < at && j == at {
                    assert(now[i] == before[i]);
                } else if i < at && j > at {
                    assert(now[i] == before[i] && now[j] == before[j - 1]);
                } else if i == at {
                    assert(now[j] == before[j - 1]);
                } else {
                    assert(now[i] == before[i - 1] && now[j] == before[j - 1]);
                }
            }
            assert forall|i: int, j: int| 0 <= i < j < now.len() implies !costs_more(
                costs@[#[trigger] now[j] as int],
                costs@[#[trigger] now[i] as int],
            ) by {
                if i < at && j < at {
                    assert(now[i] == before[i] && now[j] == before[j]);
                } else if i < at && j == at {
                    assert(now[i] == before[i]);
                } else if i < at && j > at {
                    assert(now[i] == before[i] && now[j] == before[j - 1]);
                    assert(!costs_more(costs@[before[j - 1] as int], costs@[before[i] as int]));
                } else if i == at {
                    assert(now[j] == before[j - 1]);
                } else {
                    assert(now[i] == before[i - 1] && now[j] == before[j - 1]);
                }
            }
            assert forall|i: int, j: int|
                0 <= i < j < now.len() && costs@[#[trigger] now[i] as int] == costs@[#[trigger] now[j] as int]
                    implies now[i] < now[j] by {
                if i < at && j < at {
                    assert(now[i] == before[i] && now[j] == before[j]);
                } else if i < at && j == at {
                    assert(now[i] == before[i]);
                } else if i < at && j > at {
                    assert(now[i] == before[i] && now[j] == before[j - 1]);
                } else if i == at {
                    assert(now[j] == before[j - 1]);
                    assert(costs_more(costs@[k as int], costs@[before[at as int] as int]));
                    assert(now[j] == before[j - 1]);
                    if j - 1 > at {
                        assert(!costs_more(costs@[before[j - 1] as int], costs@[before[at as int] as int]));
                    }
                } else {
                    assert(now[i] == before[i - 1] && now[j] == before[j - 1]);
                }
            }
        }
        k = k + 1;
    }
    order
}

} // verus!
