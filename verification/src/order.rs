//! Ranking: the order of a list's positions by key, ties by position.

use vstd::prelude::*;

verus! {

/// Position `a` comes before position `b`: its key is smaller, or the keys
/// are equal and `a` stands first.
pub open spec fn precedes(keys: Seq<u64>, a: int, b: int) -> bool {
    keys[a] < keys[b] || (keys[a] == keys[b] && a < b)
}

/// `order` lists the first positions of `keys` in rising order of key, equal
/// keys in the order in which they stand: as many as `limit` allows, each
/// position once, and every position left out comes after all that are listed.
pub open spec fn is_ranking(order: Seq<usize>, keys: Seq<u64>, limit: int) -> bool {
    &&& order.len() == if limit < keys.len() {
        limit
    } else {
        keys.len() as int
    }
    &&& forall|k: int| 0 <= k < order.len() ==> 0 <= #[trigger] order[k] < keys.len()
    &&& forall|j: int, k: int|
        0 <= j < k < order.len() ==> precedes(keys, order[j] as int, order[k] as int)
    &&& forall|i: int, k: int|
        0 <= i < keys.len() && 0 <= k < order.len() && !order.contains(i as usize) ==> #[trigger] precedes(
            keys,
            order[k] as int,
            i,
        )
}

/// How many of the first `n` positions are still free.
pub open spec fn count_free(taken: Seq<bool>, n: int) -> int
    decreases n,
{
    if n <= 0 || n > taken.len() {
        0
    } else {
        count_free(taken, n - 1) + if taken[n - 1] {
            0int
        } else {
            1int
        }
    }
}

/// Where a position is free, one can be found.
pub proof fn lemma_some_position_is_free(taken: Seq<bool>, n: int)
    requires
        0 <= n <= taken.len(),
        count_free(taken, n) > 0,
    ensures
        exists|i: int| 0 <= i < n && !taken[i],
    decreases n,
{
    if taken[n - 1] {
        lemma_some_position_is_free(taken, n - 1);
    }
}

/// Taking a free position leaves one free position fewer.
pub proof fn lemma_taking_a_position(taken: Seq<bool>, i: int, n: int)
    requires
        0 <= i < taken.len(),
        0 <= n <= taken.len(),
        !taken[i],
    ensures
        count_free(taken.update(i, true), n) == count_free(taken, n) - if i < n {
            1int
        } else {
            0int
        },
    decreases n,
{
    if n > 0 {
        lemma_taking_a_position(taken, i, n - 1);
    }
}

/// The first `limit` positions of `keys` by rising key, ties by position.
pub fn ranked_indices(keys: &Vec<u64>, limit: usize) -> (order: Vec<usize>)
    ensures
        is_ranking(order@, keys@, limit as int),
{
    let n = keys.len();
    let rounds = if limit < n {
        limit
    } else {
        n
    };
    let mut taken: Vec<bool> = Vec::new();
    let mut t: usize = 0;
    while t < n
        invariant
            t <= n,
            taken.len() == t,
            forall|i: int| 0 <= i < t ==> !taken[i],
            count_free(taken@, t as int) == t,
        decreases n - t,
    {
        let ghost before = taken@;
        taken.push(false);
        assert(count_free(taken@, t as int) == count_free(before, t as int)) by {
            lemma_count_free_of_prefix(taken@, before, t as int);
        }
        t += 1;
    }
    let mut order: Vec<usize> = Vec::new();
    while order.len() < rounds
        invariant
            n == keys.len(),
            rounds <= n,
            taken.len() == n,
            order.len() <= rounds,
            count_free(taken@, n as int) == n - order.len(),
            forall|k: int| 0 <= k < order.len() ==> 0 <= #[trigger] order[k] < n,
            forall|i: int| 0 <= i < n ==> (taken[i] <==> order@.contains(i as usize)),
            forall|j: int, k: int|
                0 <= j < k < order.len() ==> precedes(keys@, order[j] as int, order[k] as int),
            forall|i: int, k: int|
                0 <= i < n && 0 <= k < order.len() && !taken[i] ==> #[trigger] precedes(
                    keys@,
                    order[k] as int,
                    i,
                ),
        decreases rounds - order.len(),
    {
        proof {
            lemma_some_position_is_free(taken@, n as int);
        }
        let mut best: usize = 0;
        let mut found = false;
        let mut i: usize = 0;
        while i < n
            invariant
                i <= n,
                n == keys.len(),
                taken.len() == n,
                found ==> best < i && !taken[best as int],
                found ==> forall|j: int|
                    0 <= j < i && !taken[j] && j != best ==> precedes(keys@, best as int, j),
                !found ==> forall|j: int| 0 <= j < i ==> taken[j],
            decreases n - i,
        {
            if !taken[i] && (!found || keys[i] < keys[best]) {
                best = i;
                found = true;
            }
            i += 1;
        }
        let ghost before = order@;
        let ghost was_taken = taken@;
        taken.set(best, true);
        order.push(best);
        proof {
            lemma_taking_a_position(was_taken, best as int, n as int);
            assert forall|i: int| 0 <= i < n implies (taken[i] <==> order@.contains(
                i as usize,
            )) by {
                if i == best {
                    assert(order@[order.len() - 1] == best);
                } else {
                    if was_taken[i] {
                        let k = choose|k: int| 0 <= k < before.len() && before[k] == i as usize;
                        assert(order@[k] == i as usize);
                    }
                    if order@.contains(i as usize) {
                        let k = choose|k: int| 0 <= k < order.len() && order@[k] == i as usize;
                        assert(before[k] == i as usize);
                    }
                }
            }
            assert forall|j: int, k: int| 0 <= j < k < order.len() implies precedes(
                keys@,
                order[j] as int,
                order[k] as int,
            ) by {
                assert(order[j] == before[j]);
                if k < before.len() {
                    assert(order[k] == before[k]);
                }
            }
            assert forall|i: int, k: int|
                0 <= i < n && 0 <= k < order.len() && !taken[i] implies #[trigger] precedes(
                keys@,
                order[k] as int,
                i,
            ) by {
                if k < before.len() {
                    assert(order[k] == before[k]);
                }
            }
        }
    }
    order
}

/// The count over the first `n` positions depends on those positions alone.
pub proof fn lemma_count_free_of_prefix(a: Seq<bool>, b: Seq<bool>, n: int)
    requires
        0 <= n <= a.len(),
        n <= b.len(),
        forall|i: int| 0 <= i < n ==> a[i] == b[i],
    ensures
        count_free(a, n) == count_free(b, n),
    decreases n,
{
    if n > 0 {
        lemma_count_free_of_prefix(a, b, n - 1);
    }
}

} // verus!
