//! Ranking of scored candidates: the top `n` by descending score, ties broken
//! by ascending position, excluded candidates left out.
//!
//! A score is handed in as the raw bits of a 32-bit float. For every value
//! that is not NaN, `score_order` orders the bits as the floats are ordered,
//! with both zeros equal.
use vstd::prelude::*;
use vstd::set_lib::lemma_len_subset;

verus! {

/// The rank of a float's bits: its magnitude bits, negated when the sign bit is set.
pub open spec fn score_order(bits: u32) -> int {
    if bits < 0x8000_0000 {
        bits as int
    } else {
        -(bits - 0x8000_0000)
    }
}

/// Candidate `a` comes before candidate `b`: a higher score, or an equal score
/// and a lower position.
pub open spec fn ranks_before(scores: Seq<u32>, a: int, b: int) -> bool {
    ||| score_order(scores[a]) > score_order(scores[b])
    ||| score_order(scores[a]) == score_order(scores[b]) && a < b
}

/// `chosen` is the top `n` of the candidates that are not excluded, in rank order.
pub open spec fn is_top_selection(scores: Seq<u32>, excluded: Seq<bool>, n: nat, chosen: Seq<usize>) -> bool {
    &&& chosen.len() <= n
    &&& forall|i: int|
        0 <= i < chosen.len() ==> #[trigger] chosen[i] < scores.len() && !excluded[chosen[i] as int]
    &&& forall|i: int, j: int|
        0 <= i < j < chosen.len() ==> ranks_before(scores, #[trigger] chosen[i] as int, #[trigger] chosen[j] as int)
    &&& forall|k: int|
        0 <= k < scores.len() && !excluded[k] && !chosen.contains(k as usize) ==> {
            &&& chosen.len() == n
            &&& forall|i: int| 0 <= i < chosen.len() ==> ranks_before(scores, #[trigger] chosen[i] as int, k)
        }
}

/// How many candidates `excluded` leaves.
pub open spec fn eligible_count(excluded: Seq<bool>) -> nat
    decreases excluded.len(),
{
    if excluded.len() == 0 {
        0
    } else {
        eligible_count(excluded.drop_last()) + if excluded.last() {
            0nat
        } else {
            1nat
        }
    }
}

/// The candidates below `m` that `excluded` leaves, as a set of positions.
pub open spec fn eligible_below(excluded: Seq<bool>, m: int) -> Set<usize> {
    Set::new(|k: usize| k < m && !excluded[k as int])
}

proof fn lemma_eligible_below(excluded: Seq<bool>, m: int)
    requires
        0 <= m <= excluded.len() <= usize::MAX,
    ensures
        eligible_below(excluded, m).finite(),
        eligible_below(excluded, m).len() == eligible_count(excluded.take(m)),
    decreases m,
{
    if m == 0 {
        assert(eligible_below(excluded, m) =~= Set::<usize>::empty());
        assert(excluded.take(0).len() == 0);
    } else {
        lemma_eligible_below(excluded, m - 1);
        assert(excluded.take(m).drop_last() =~= excluded.take(m - 1));
        let below = eligible_below(excluded, m - 1);
        if excluded[m - 1] {
            assert(eligible_below(excluded, m) =~= below);
        } else {
            assert(eligible_below(excluded, m) =~= below.insert((m - 1) as usize));
            assert(!below.contains((m - 1) as usize));
        }
    }
}

/// A top selection is ordered by non-increasing score, and holds `n`
/// candidates, or all of them where fewer than `n` are left.
pub proof fn lemma_top_selection_shape(scores: Seq<u32>, excluded: Seq<bool>, n: nat, chosen: Seq<usize>)
    requires
        scores.len() == excluded.len() <= usize::MAX,
        is_top_selection(scores, excluded, n, chosen),
    ensures
        forall|i: int, j: int|
            0 <= i < j < chosen.len() ==> score_order(scores[#[trigger] chosen[i] as int]) >= score_order(
                scores[#[trigger] chosen[j] as int],
            ),
        chosen.len() == if n <= eligible_count(excluded) {
            n
        } else {
            eligible_count(excluded)
        },
{
    let all = eligible_below(excluded, excluded.len() as int);
    lemma_eligible_below(excluded, excluded.len() as int);
    assert(excluded.take(excluded.len() as int) =~= excluded);
    assert(chosen.no_duplicates()) by {
        assert forall|i: int, j: int| 0 <= i < chosen.len() && 0 <= j < chosen.len() && i != j implies chosen[i] != chosen[j] by {
            if i < j {
                assert(ranks_before(scores, chosen[i] as int, chosen[j] as int));
            } else {
                assert(ranks_before(scores, chosen[j] as int, chosen[i] as int));
            }
        }
    }
    chosen.unique_seq_to_set();
    let picked = chosen.to_set();
    assert(picked.subset_of(all)) by {
        assert forall|x: usize| picked.contains(x) implies all.contains(x) by {
            let i = choose|i: int| 0 <= i < chosen.len() && chosen[i] == x;
            assert(chosen[i] < scores.len());
        }
    }
    lemma_len_subset(picked, all);
    if chosen.len() < n {
        assert(all.subset_of(picked)) by {
            assert forall|x: usize| all.contains(x) implies picked.contains(x) by {
                assert(!excluded[x as int]);
                if !chosen.contains(x) {
                    assert(chosen.len() == n);
                }
            }
        }
        lemma_len_subset(all, picked);
    }
}

/// The rank of a score, as `score_order` gives it.
pub fn order_key(bits: u32) -> (r: i64)
    ensures
        r == score_order(bits),
{
    if bits < 0x8000_0000 {
        bits as i64
    } else {
        -((bits - 0x8000_0000) as i64)
    }
}

/// The positions of the top `n` candidates that `excluded` does not mark,
/// best first.
pub fn top_ranked(scores: &Vec<u32>, excluded: &Vec<bool>, n: usize) -> (r: Vec<usize>)
    requires
        scores@.len() == excluded@.len(),
    ensures
        is_top_selection(scores@, excluded@, n as nat, r@),
{
    let len = scores.len();
    let mut taken: Vec<bool> = Vec::new();
    let mut k: usize = 0;
    while k < len
        invariant
            k <= len == scores@.len() == excluded@.len(),
            taken@ == excluded@.take(k as int),
        decreases len - k,
    {
        taken.push(excluded[k]);
        assert(taken@ =~= excluded@.take(k + 1));
        k = k + 1;
    }
    assert(taken@ =~= excluded@);
    let mut chosen: Vec<usize> = Vec::new();
    loop
        invariant
            len == scores@.len() == excluded@.len() == taken@.len(),
            chosen@.len() <= n,
            forall|i: int|
                0 <= i < chosen@.len() ==> #[trigger] chosen@[i] < len && !excluded@[chosen@[i] as int]
                    && taken@[chosen@[i] as int],
            forall|x: int| 0 <= x < len ==> (#[trigger] taken@[x] <==> excluded@[x] || chosen@.contains(x as usize)),
            forall|i: int, j: int|
                0 <= i < j < chosen@.len() ==> ranks_before(scores@, #[trigger] chosen@[i] as int, #[trigger] chosen@[j] as int),
            forall|i: int, x: int|
                0 <= i < chosen@.len() && 0 <= x < len && !#[trigger] taken@[x] ==> ranks_before(scores@, #[trigger] chosen@[i] as int, x),
        ensures
            is_top_selection(scores@, excluded@, n as nat, chosen@),
        decreases n - chosen@.len(),
    {
        if chosen.len() >= n {
            assert forall|x: int|
                0 <= x < scores@.len() && !excluded@[x] && !chosen@.contains(x as usize) implies !taken@[x] by {}
            break;
        }
        let mut best: Option<usize> = None;
        let mut best_key: i64 = 0;
        let mut j: usize = 0;
        while j < len
            invariant
                j <= len == scores@.len() == taken@.len(),
                match best {
                    Some(b) => {
                        &&& b < j
                        &&& !taken@[b as int]
                        &&& best_key == score_order(scores@[b as int])
                        &&& forall|x: int| 0 <= x < j && !taken@[x] && x != b ==> ranks_before(scores@, b as int, x)
                    },
                    None => forall|x: int| 0 <= x < j ==> taken@[x],
                },
            decreases len - j,
        {
            if !taken[j] {
                let key = order_key(scores[j]);
                match best {
                    None => {
                        best = Some(j);
                        best_key = key;
                    },
                    Some(_) => {
                        if key > best_key {
                            best = Some(j);
                            best_key = key;
                        }
                    },
                }
            }
            j = j + 1;
        }
        match best {
            None => {
                assert forall|x: int|
                    0 <= x < scores@.len() && !excluded@[x] implies chosen@.contains(x as usize) by {
                    assert(taken@[x]);
                }
                break;
            },
            Some(b) => {
                let ghost old_chosen = chosen@;
                chosen.push(b);
                taken.set(b, true);
                assert(chosen@ == old_chosen.push(b));
                assert forall|x: int| 0 <= x < len implies (#[trigger] taken@[x] <==> excluded@[x] || chosen@.contains(x as usize)) by {
                    if x == b {
                        assert(chosen@[chosen@.len() - 1] == b);
                    } else if old_chosen.contains(x as usize) {
                        let w = choose|w: int| 0 <= w < old_chosen.len() && old_chosen[w] == x as usize;
                        assert(chosen@[w] == x as usize);
                    } else if chosen@.contains(x as usize) {
                        let w = choose|w: int| 0 <= w < chosen@.len() && chosen@[w] == x as usize;
                        if w < old_chosen.len() {
                            assert(old_chosen[w] == x as usize);
                        }
                    }
                }
            },
        }
    }
    chosen
}

} // verus!
