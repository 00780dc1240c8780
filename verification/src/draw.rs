//! The number draw: one independent sub-draw per slot, rejection-sampled so
//! the drawn numbers are pairwise distinct.

use vstd::prelude::*;
use vstd::seq_lib::*;
use vstd::set_lib::*;
use crate::rng::RandomNumberGeneratorTrait;

verus! {

/// What a draw produces: exactly `number_of_numbers` values, each in
/// `[1, max_range]`, pairwise distinct.
pub open spec fn valid_draw(d: Seq<u32>, number_of_numbers: u32, max_range: u32) -> bool {
    &&& d.len() == number_of_numbers
    &&& (forall|i: int| 0 <= i < d.len() ==> 1 <= #[trigger] d[i] <= max_range)
    &&& d.no_duplicates()
}

/// Whether `x` occurs in `v`.
pub fn vec_contains_u32(v: &Vec<u32>, x: u32) -> (r: bool)
    ensures
        r == v@.contains(x),
{
    let mut i: usize = 0;
    while i < v.len()
        invariant
            i <= v@.len(),
            forall|j: int| 0 <= j < i ==> v@[j] != x,
        decreases v@.len() - i,
    {
        if v[i] == x {
            return true;
        }
        i = i + 1;
    }
    false
}

/// The smallest value of `[1, max_range]` absent from `numbers`; one exists
/// because fewer than `max_range` distinct values are taken.
fn first_missing(numbers: &Vec<u32>, max_range: u32) -> (r: u32)
    requires
        numbers@.no_duplicates(),
        numbers@.len() < max_range,
    ensures
        1 <= r <= max_range,
        !numbers@.contains(r),
{
    let mut i: u32 = 0;
    while i < max_range
        invariant
            i <= max_range,
            forall|j: u32| 1 <= j <= i ==> numbers@.contains(j),
        decreases max_range - i,
    {
        if !vec_contains_u32(numbers, i + 1) {
            return i + 1;
        }
        i = i + 1;
    }
    proof {
        let s = numbers@;
        let si = s.map_values(|x: u32| x as int);
        assert(si.no_duplicates()) by {
            assert forall|p: int, q: int|
                (0 <= p < si.len() && 0 <= q < si.len() && p != q) implies si[p] != si[q] by {
                assert(s[p] != s[q]);
            }
        }
        assert forall|v: int| set_int_range(1, max_range as int + 1).contains(v)
            implies #[trigger] si.to_set().contains(v) by {
            assert(numbers@.contains(v as u32));
            let idx = choose|idx: int| 0 <= idx < s.len() && s[idx] == v as u32;
            assert(si[idx] == v);
            assert(si.contains(v));
        }
        si.unique_seq_to_set();
        lemma_int_range(1, max_range as int + 1);
        lemma_len_subset(set_int_range(1, max_range as int + 1), si.to_set());
        assert(false);
    }
    1
}

/// Draws `number_of_numbers` pairwise-distinct values in `[1, max_range]`:
/// for each slot, an independent generator is seeded with the round seed plus
/// the slot index and sampled until a fresh value comes out. The result is a
/// deterministic function of the seed and the generator algorithm.
pub fn draw_numbers<T: RandomNumberGeneratorTrait>(
    max_range: u32,
    number_of_numbers: u32,
    random_seed: u64,
) -> (r: Vec<u32>)
    requires
        number_of_numbers <= max_range,
    ensures
        valid_draw(r@, number_of_numbers, max_range),
{
    let mut numbers: Vec<u32> = Vec::new();
    let mut n: u32 = 0;
    while n < number_of_numbers
        invariant
            n <= number_of_numbers,
            number_of_numbers <= max_range,
            numbers@.len() == n,
            forall|i: int| 0 <= i < numbers@.len() ==> 1 <= #[trigger] numbers@[i] <= max_range,
            numbers@.no_duplicates(),
        decreases number_of_numbers - n,
    {
        let new_seed = random_seed.wrapping_add(n as u64);
        let mut generator = T::new(new_seed);
        let mut drawn = generator.number(max_range);
        let mut fuel: u64 = u64::MAX;
        loop
            invariant
                1 <= drawn <= max_range,
                numbers@.len() < max_range,
                numbers@.no_duplicates(),
                max_range >= 1,
            ensures
                1 <= drawn <= max_range,
                !numbers@.contains(drawn),
            decreases fuel,
        {
            if !vec_contains_u32(&numbers, drawn) {
                break;
            }
            if fuel == 0 {
                drawn = first_missing(&numbers, max_range);
                break;
            }
            fuel = fuel - 1;
            drawn = generator.number(max_range);
        }
        let ghost prev = numbers@;
        numbers.push(drawn);
        proof {
            assert forall|i: int, j: int|
                (0 <= i < numbers@.len() && 0 <= j < numbers@.len() && i != j)
                implies numbers@[i] != numbers@[j] by {
                if i == prev.len() as int {
                    assert(numbers@[j] == prev[j]);
                    assert(prev.contains(prev[j]));
                } else if j == prev.len() as int {
                    assert(numbers@[i] == prev[i]);
                    assert(prev.contains(prev[i]));
                }
            }
        }
        n = n + 1;
    }
    numbers
}

} // verus!
