//! Ids for new facts.

use vstd::prelude::*;

use crate::fact::{views, Fact, FactText};
use crate::text::{char_count, same};

verus! {

/// The next state of the generator: three xors with shifts of the state itself.
pub open spec fn scrambled(x: u64) -> u64 {
    let a = x ^ (x << 13);
    let b = a ^ (a >> 7);
    b ^ (b << 17)
}

/// The state after `n` steps.
pub open spec fn state_after(seed: u64, n: nat) -> u64
    decreases n,
{
    if n == 0 {
        seed
    } else {
        scrambled(state_after(seed, (n - 1) as nat))
    }
}

/// The letter or digit that a state stands for.
pub open spec fn id_char(state: u64) -> char {
    let k = state % 36;
    if k < 26 {
        (97 + k) as char
    } else {
        (48 + k - 26) as char
    }
}

/// The length of a candidate: three characters at first, one more after every 101 candidates.
pub open spec fn id_length(k: nat) -> nat {
    3 + k / 101
}

/// The steps of the generator that the candidates before `k` took.
pub open spec fn steps_before(k: nat) -> nat
    decreases k,
{
    if k == 0 {
        0
    } else {
        steps_before((k - 1) as nat) + id_length((k - 1) as nat)
    }
}

/// A run of `len` characters from the states that follow step `from`.
pub open spec fn drawn(seed: u64, from: nat, len: nat) -> Seq<char> {
    Seq::new(len, |i: int| id_char(state_after(seed, (from + i + 1) as nat)))
}

/// The candidate number `k`.
pub open spec fn candidate(seed: u64, k: nat) -> Seq<char> {
    drawn(seed, steps_before(k), id_length(k))
}

/// Whether a fact has this id.
pub open spec fn is_taken(facts: Seq<FactText>, id: Seq<char>) -> bool {
    exists|i: int| 0 <= i < facts.len() && #[trigger] facts[i].id == id
}

/// Whether `k` is the first candidate that no fact has.
pub open spec fn is_first_free(facts: Seq<FactText>, seed: u64, k: nat) -> bool {
    &&& !is_taken(facts, candidate(seed, k))
    &&& forall|j: nat| j < k ==> is_taken(facts, #[trigger] candidate(seed, j))
}

/// The first candidate that no fact has.
pub open spec fn free_id(facts: Seq<FactText>, seed: u64) -> Seq<char> {
    candidate(seed, choose|k: nat| is_first_free(facts, seed, k))
}

/// The start of the generator, from the time in nanoseconds and the number of the process.
pub open spec fn seed_of(nanos: u64, process: u32) -> u64 {
    (nanos ^ ((process as u64) << 32)) | 1
}

proof fn lemma_first_free_is(facts: Seq<FactText>, seed: u64, k: nat)
    requires
        is_first_free(facts, seed, k),
    ensures
        free_id(facts, seed) == candidate(seed, k),
{
    let j = choose|j: nat| is_first_free(facts, seed, j);
    assert(is_first_free(facts, seed, j));
    if j < k {
        assert(is_taken(facts, candidate(seed, j)));
    } else if k < j {
        assert(is_taken(facts, candidate(seed, k)));
    }
}

/// The length of the longest id.
pub open spec fn longest(facts: Seq<FactText>) -> nat
    decreases facts.len(),
{
    if facts.len() == 0 {
        0
    } else {
        let before = longest(facts.drop_last());
        if facts.last().id.len() > before {
            facts.last().id.len()
        } else {
            before
        }
    }
}

proof fn lemma_longest(facts: Seq<FactText>)
    ensures
        forall|i: int| 0 <= i < facts.len() ==> (#[trigger] facts[i]).id.len() <= longest(facts),
    decreases facts.len(),
{
    if facts.len() > 0 {
        let shorter = facts.drop_last();
        lemma_longest(shorter);
        assert(forall|i: int| 0 <= i < shorter.len() ==> shorter[i] == #[trigger] facts[i]);
    }
}

proof fn lemma_first_free_before(facts: Seq<FactText>, seed: u64, k: nat)
    requires
        !is_taken(facts, candidate(seed, k)),
    ensures
        exists|j: nat| #[trigger] is_first_free(facts, seed, j),
    decreases k,
{
    if forall|j: nat| j < k ==> is_taken(facts, #[trigger] candidate(seed, j)) {
        assert(is_first_free(facts, seed, k));
    } else {
        let j = choose|j: nat| j < k && !is_taken(facts, #[trigger] candidate(seed, j));
        lemma_first_free_before(facts, seed, j);
    }
}

/// There is always a free id, and it is a new one: no fact has it.
pub proof fn law_free_id(facts: Seq<FactText>, seed: u64)
    ensures
        !is_taken(facts, free_id(facts, seed)),
        free_id(facts, seed).len() >= 3,
{
    let k = (101 * (longest(facts) + 1)) as nat;
    lemma_longest(facts);
    assert(k / 101 == longest(facts) + 1);
    assert(candidate(seed, k).len() == id_length(k));
    assert(!is_taken(facts, candidate(seed, k)));
    lemma_first_free_before(facts, seed, k);
    let j = choose|j: nat| is_first_free(facts, seed, j);
    assert(is_first_free(facts, seed, j));
    assert(candidate(seed, j).len() == id_length(j));
}

/// Every character of an id is a lower case letter or a digit.
pub proof fn law_id_characters(seed: u64, k: nat, i: int)
    requires
        0 <= i < candidate(seed, k).len(),
    ensures
        'a' <= candidate(seed, k)[i] <= 'z' || '0' <= candidate(seed, k)[i] <= '9',
{
}

fn taken(facts: &[Fact], id: &str) -> (hit: bool)
    ensures
        hit == is_taken(views(facts@), id@),
{
    for i in 0..facts.len()
        invariant
            forall|j: int| 0 <= j < i ==> (#[trigger] views(facts@)[j]).id != id@,
    {
        if same(&facts[i].id, id) {
            assert(views(facts@)[i as int].id == id@);
            return true;
        }
    }
    false
}

fn longest_id(facts: &[Fact]) -> (n: usize)
    ensures
        forall|i: int| 0 <= i < facts@.len() ==> (#[trigger] views(facts@)[i]).id.len() <= n,
{
    let mut n: usize = 0;
    for i in 0..facts.len()
        invariant
            forall|j: int| 0 <= j < i ==> (#[trigger] views(facts@)[j]).id.len() <= n,
    {
        let len = char_count(&facts[i].id);
        if len > n {
            n = len;
        }
    }
    n
}

fn step(state: u64) -> (next: u64)
    ensures
        next == scrambled(state),
{
    let a = state ^ (state << 13);
    let b = a ^ (a >> 7);
    b ^ (b << 17)
}

/// An id that none of the facts has: the first free one of a run of candidates that the time and
/// the number of the process determine.
pub fn new_id(existing: &[Fact], nanos: u64, process: u32) -> (id: String)
    ensures
        id@ == free_id(views(existing@), seed_of(nanos, process)),
        !is_taken(views(existing@), id@),
        id@.len() >= 3,
{
    let seed: u64 = (nanos ^ ((process as u64) << 32)) | 1;
    let mut state: u64 = seed;
    let longest = longest_id(existing);
    let mut len: u128 = 3;
    let mut tries: u128 = 0;
    let ghost mut k: nat = 0;
    let ghost facts = views(existing@);
    loop
        invariant
            facts == views(existing@),
            seed == seed_of(nanos, process),
            state == state_after(seed, steps_before(k)),
            len == id_length(k),
            tries == k % 101,
            len <= longest + 4,
            k <= 101 * (longest + 1),
            forall|i: int| 0 <= i < facts.len() ==> (#[trigger] facts[i]).id.len() <= longest,
            forall|j: nat| j < k ==> is_taken(facts, #[trigger] candidate(seed, j)),
        decreases 101 * (longest + 1) - k,
    {
        let mut id = String::new();
        let mut i: u128 = 0;
        let ghost from = steps_before(k);
        assert(id@ =~= drawn(seed, from, 0));
        while i < len
            invariant
                i <= len,
                state == state_after(seed, (from + i) as nat),
                id@ == drawn(seed, from, i as nat),
            decreases len - i,
        {
            state = step(state);
            let k = state % 36;
            let c = if k < 26 {
                (97 + k as u8) as char
            } else {
                (48 + (k as u8 - 26)) as char
            };
            id.push(c);
            i = i + 1;
            assert(id@ =~= drawn(seed, from, i as nat));
        }
        assert(id@ == candidate(seed, k));
        if !taken(existing, &id) {
            assert(is_first_free(facts, seed, k));
            proof {
                lemma_first_free_is(facts, seed, k);
            }
            return id;
        }
        assert(len <= longest);
        proof {
            k = k + 1;
        }
        tries = tries + 1;
        if tries > 100 {
            len = len + 1;
            tries = 0;
        }
    }
}

/// A new id is the first candidate that no fact has, and the candidates before it are all ids of
/// facts.
pub proof fn law_first_free(facts: Seq<FactText>, seed: u64)
    ensures
        exists|k: nat|
            free_id(facts, seed) == #[trigger] candidate(seed, k) && (forall|i: int|
                0 <= i < facts.len() ==> (#[trigger] facts[i]).id != candidate(seed, k)) && forall|
                j: nat,
            |
                j < k ==> exists|i: int|
                    0 <= i < facts.len() && (#[trigger] facts[i]).id == #[trigger] candidate(
                        seed,
                        j,
                    ),
{
    let k = (101 * (longest(facts) + 1)) as nat;
    lemma_longest(facts);
    assert(k / 101 == longest(facts) + 1);
    assert(candidate(seed, k).len() == id_length(k));
    assert(!is_taken(facts, candidate(seed, k)));
    lemma_first_free_before(facts, seed, k);
    let n = choose|n: nat| is_first_free(facts, seed, n);
    assert(is_first_free(facts, seed, n));
    let id = candidate(seed, n);
    assert forall|i: int| 0 <= i < facts.len() implies (#[trigger] facts[i]).id != id by {
        if facts[i].id == id {
            assert(is_taken(facts, id));
        }
    }
    assert forall|j: nat| j < n implies exists|i: int|
        0 <= i < facts.len() && (#[trigger] facts[i]).id == #[trigger] candidate(seed, j) by {
        assert(is_taken(facts, candidate(seed, j)));
        let i = choose|i: int| 0 <= i < facts.len() && #[trigger] facts[i].id == candidate(seed, j);
        assert(facts[i].id == candidate(seed, j));
    }
    assert(free_id(facts, seed) == candidate(seed, n));
}

/// The first candidates have three characters, and every one has a character more than the one 101
/// candidates before it.
pub proof fn law_id_lengths(seed: u64, k: nat)
    ensures
        k < 101 ==> candidate(seed, k).len() == 3,
        candidate(seed, k + 101).len() == candidate(seed, k).len() + 1,
{
}

/// The candidates are cut from one run of characters, one behind the other.
pub proof fn law_candidates_follow(seed: u64, k: nat)
    ensures
        ({
            let a = candidate(seed, k);
            let b = candidate(seed, k + 1);
            drawn(seed, steps_before(k), a.len() + b.len()) == a + b
        }),
        candidate(seed, 0) == drawn(seed, 0, 3),
{
    let a = candidate(seed, k);
    let b = candidate(seed, k + 1);
    assert(drawn(seed, steps_before(k), a.len() + b.len()) =~= a + b);
}

/// The generator never comes to a stop: it does not start at zero and does not get there.
pub proof fn law_generator_runs(nanos: u64, process: u32, n: nat)
    ensures
        seed_of(nanos, process) != 0,
        state_after(seed_of(nanos, process), n) != 0,
    decreases n,
{
    let shifted = (process as u64) << 32;
    assert((nanos ^ shifted) | 1 != 0) by (bit_vector);
    if n > 0 {
        law_generator_runs(nanos, process, (n - 1) as nat);
        let x = state_after(seed_of(nanos, process), (n - 1) as nat);
        let a = x ^ (x << 13);
        let b = a ^ (a >> 7);
        assert(x != 0 ==> x ^ (x << 13) != 0) by (bit_vector);
        assert(a != 0 ==> a ^ (a >> 7) != 0) by (bit_vector);
        assert(b != 0 ==> b ^ (b << 17) != 0) by (bit_vector);
    }
}

} // verus!
