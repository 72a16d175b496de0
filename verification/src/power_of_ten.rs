use vstd::prelude::*;
use vstd::arithmetic::power::pow;
use crate::integer::Integer;

verus! {

/// The powers of ten that fit a signed machine word: entry `k` is `10^k`.
pub const LONG_TEN_POWERS_TABLE: [i64; 19] = [
    1,
    10,
    100,
    1000,
    10000,
    100000,
    1000000,
    10000000,
    100000000,
    1000000000,
    10000000000,
    100000000000,
    1000000000000,
    10000000000000,
    100000000000000,
    1000000000000000,
    10000000000000000,
    100000000000000000,
    1000000000000000000,
];

/// Every entry of the table is the power of ten of its index.
pub proof fn lemma_table_holds_powers()
    ensures
        forall|k: int| 0 <= k < 19 ==> #[trigger] LONG_TEN_POWERS_TABLE[k] == pow(10, k as nat),
{
    reveal(pow);
    assert(pow(10, 0) == 1);
    assert(pow(10, 1) == 10);
    assert(pow(10, 2) == 100);
    assert(pow(10, 3) == 1000);
    assert(pow(10, 4) == 10000);
    assert(pow(10, 5) == 100000);
    assert(pow(10, 6) == 1000000);
    assert(pow(10, 7) == 10000000);
    assert(pow(10, 8) == 100000000);
    assert(pow(10, 9) == 1000000000);
    assert(pow(10, 10) == 10000000000);
    assert(pow(10, 11) == 100000000000);
    assert(pow(10, 12) == 1000000000000);
    assert(pow(10, 13) == 10000000000000);
    assert(pow(10, 14) == 100000000000000);
    assert(pow(10, 15) == 1000000000000000);
    assert(pow(10, 16) == 10000000000000000);
    assert(pow(10, 17) == 100000000000000000);
    assert(pow(10, 18) == 1000000000000000000);
}

/// The length a cache of `length` entries is grown to so that it covers
/// `index`: the length doubled until it exceeds the index.
pub open spec fn grown_length(length: nat, index: nat) -> nat
    decreases
        (if length <= index {
            index + 1 - length
        } else {
            0
        }),
{
    if length == 0 || length > index {
        length
    } else {
        grown_length(2 * length, index)
    }
}

/// Growing never shortens the cache, and what it is grown to covers the
/// index.
pub proof fn lemma_grown_length_covers(length: nat, index: nat)
    ensures
        grown_length(length, index) >= length,
        length >= 1 ==> grown_length(length, index) > index,
    decreases
        (if length <= index {
            index + 1 - length
        } else {
            0
        }),
{
    if length != 0 && length <= index {
        lemma_grown_length_covers(2 * length, index);
    }
}

/// Growing for one exponent and then for another ends at the larger of the
/// two lengths that each asks for alone: the order of the callers plays no
/// part, and nothing is grown twice.
pub proof fn lemma_grown_length_twice(length: nat, first: nat, second: nat)
    requires
        length >= 1,
    ensures
        grown_length(grown_length(length, first), second) == if grown_length(length, first)
            >= grown_length(length, second) {
            grown_length(length, first)
        } else {
            grown_length(length, second)
        },
    decreases
        (if length <= first {
            first + 1 - length
        } else {
            0
        }) + (if length <= second {
            second + 1 - length
        } else {
            0
        }),
{
    lemma_grown_length_covers(length, first);
    lemma_grown_length_covers(length, second);
    if length > first {
        // nothing to grow for the first exponent
    } else if length > second {
        // the first growth only lengthens a cache that covers the second
        assert(grown_length(length, first) > second);
    } else {
        lemma_grown_length_twice(2 * length, first, second);
    }
}

/// A growing table of powers of ten: entry `k` is `10^k`. Entries are only
/// ever appended.
pub struct PowerCache {
    entries: Vec<Integer>,
}

impl PowerCache {
    /// The cache is never empty, and entry `k` is `10^k`.
    pub closed spec fn well_formed(&self) -> bool {
        &&& self.entries@.len() >= 1
        &&& forall|k: int|
            0 <= k < self.entries@.len() ==> (#[trigger] self.entries@[k])@ == pow(10, k as nat)
    }

    /// Number of powers the cache holds: it covers the exponents below.
    pub closed spec fn covered(&self) -> nat {
        self.entries@.len()
    }

    /// A cache that holds the powers of the fixed table.
    pub fn new() -> (cache: PowerCache)
        ensures
            cache.well_formed(),
            cache.covered() == 19,
    {
        let mut entries: Vec<Integer> = Vec::new();
        let mut k: usize = 0;
        proof {
            lemma_table_holds_powers();
        }
        while k < 19
            invariant
                k <= 19,
                entries@.len() == k,
                forall|j: int| 0 <= j < 19 ==> #[trigger] LONG_TEN_POWERS_TABLE[j] == pow(10, j as nat),
                forall|j: int| 0 <= j < k ==> (#[trigger] entries@[j])@ == pow(10, j as nat),
            decreases 19 - k,
        {
            entries.push(Integer::from_i64(LONG_TEN_POWERS_TABLE[k]));
            k = k + 1;
        }
        PowerCache { entries }
    }

    /// Number of powers the cache holds.
    pub fn len(&self) -> (length: usize)
        ensures
            length == self.covered(),
    {
        self.entries.len()
    }

    /// The power of ten at `exponent`, where the cache covers it.
    pub fn get(&self, exponent: usize) -> (power: Option<Integer>)
        requires
            self.well_formed(),
        ensures
            match power {
                Some(value) => exponent < self.covered() && value@ == pow(10, exponent as nat),
                None => exponent >= self.covered(),
            },
    {
        if exponent < self.entries.len() {
            Some(self.entries[exponent].duplicate())
        } else {
            None
        }
    }
}

/// Ten to the power `n` as an exact integer, and zero for a negative `n`.
/// The powers of the fixed table are answered from it, and the cache is left
/// alone. For a larger `n` that the cache does not cover yet, its length is
/// doubled until it does and the missing powers are appended, each from the
/// one before; nothing that the cache holds is ever changed.
pub fn big_ten_to_the(cache: &mut PowerCache, n: i32) -> (power: Integer)
    requires
        old(cache).well_formed(),
    ensures
        final(cache).well_formed(),
        final(cache).covered() >= old(cache).covered(),
        power@ == if n < 0 {
            0
        } else {
            pow(10, n as nat)
        },
        final(cache).covered() == if n < 19 {
            old(cache).covered()
        } else {
            grown_length(old(cache).covered(), n as nat)
        },
        n >= 19 ==> final(cache).covered() > n,
{
    if n < 0 {
        return Integer::zero();
    }
    if (n as usize) < LONG_TEN_POWERS_TABLE.len() {
        proof {
            lemma_table_holds_powers();
        }
        return Integer::from_i64(LONG_TEN_POWERS_TABLE[n as usize]);
    }
    proof {
        lemma_grown_length_covers(cache.covered(), n as nat);
    }
    let index: usize = n as usize;
    let current_len: usize = cache.entries.len();
    if current_len <= index {
        let mut new_len: u64 = (current_len as u64) * 2;
        proof {
            reveal_with_fuel(grown_length, 2);
        }
        while new_len <= index as u64
            invariant
                1 <= new_len <= 0x1_0000_0000,
                index == n,
                grown_length(new_len as nat, n as nat) == grown_length(current_len as nat, n as nat),
            decreases
                (if new_len <= index {
                    index + 1 - new_len
                } else {
                    0
                }),
        {
            new_len = new_len * 2;
        }
        let ten = Integer::from_i64(10);
        while (cache.entries.len() as u64) < new_len
            invariant
                ten@ == 10,
                1 <= cache.entries@.len() <= new_len,
                forall|k: int|
                    0 <= k < cache.entries@.len() ==> (#[trigger] cache.entries@[k])@ == pow(
                        10,
                        k as nat,
                    ),
            decreases new_len - cache.entries@.len(),
        {
            let last: usize = cache.entries.len() - 1;
            let next = cache.entries[last].times(&ten);
            proof {
                reveal(pow);
                assert(pow(10, (last + 1) as nat) == 10 * pow(10, last as nat));
            }
            cache.entries.push(next);
        }
    }
    cache.entries[index].duplicate()
}

} // verus!
