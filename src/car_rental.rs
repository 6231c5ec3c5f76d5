//! The two rental locations: cars moved overnight between them, and the
//! counts that a day of rentals and returns can leave.
use vstd::prelude::*;

verus! {

/// The most cars that can be moved overnight.
pub const MAX_MOVES: i32 = 5;

/// Cars at the two locations at the end of a day.
#[derive(Clone, Copy, Debug, PartialEq, Eq, Hash, Structural)]
pub struct State {
    pub l1: i32,
    pub l2: i32,
}

impl State {
    pub fn new(l1: i32, l2: i32) -> (r: State)
        ensures
            r.l1 == l1,
            r.l2 == l2,
    {
        State { l1: l1, l2: l2 }
    }
}

pub open spec fn min3(a: int, b: int, c: int) -> int {
    if a <= b && a <= c {
        a
    } else if b <= c {
        b
    } else {
        c
    }
}

/// The transfers open overnight, from the first location to the second
/// (negative: the other way): at most `MAX_MOVES` cars, no more than the
/// giving location has, and no more than the taking location has room for.
pub fn transfer_range(max_cars: i32, l1: i32, l2: i32) -> (r: (i32, i32))
    requires
        0 <= l1 <= max_cars,
        0 <= l2 <= max_cars,
    ensures
        r.0 == -min3(l2 as int, MAX_MOVES as int, (max_cars - l1) as int),
        r.1 == min3(l1 as int, MAX_MOVES as int, (max_cars - l2) as int),
        r.0 <= 0 <= r.1,
{
    let a = if l2 < MAX_MOVES { l2 } else { MAX_MOVES };
    let a = if a < max_cars - l1 { a } else { max_cars - l1 };
    let b = if l1 < MAX_MOVES { l1 } else { MAX_MOVES };
    let b = if b < max_cars - l2 { b } else { max_cars - l2 };
    (-a, b)
}

pub open spec fn min_transfer(max_cars: int, l1: int, l2: int) -> int {
    -min3(l2, MAX_MOVES as int, max_cars - l1)
}

pub open spec fn max_transfer(max_cars: int, l1: int, l2: int) -> int {
    min3(l1, MAX_MOVES as int, max_cars - l2)
}

/// Every transfer in the range keeps both locations within
/// `0 ..= max_cars` and moves at most `MAX_MOVES` cars.
pub proof fn lemma_transfers_keep_counts(max_cars: int, l1: int, l2: int, t: int)
    requires
        0 <= l1 <= max_cars,
        0 <= l2 <= max_cars,
        -min3(l2, MAX_MOVES as int, max_cars - l1) <= t <= min3(l1, MAX_MOVES as int, max_cars - l2),
    ensures
        0 <= l1 - t <= max_cars,
        0 <= l2 + t <= max_cars,
        -MAX_MOVES <= t <= MAX_MOVES,
{
}

/// The cars at a location at the end of a day that began with `day` cars,
/// `rented` of them rented out and `returned` brought back, the lot capped
/// at `max_cars`.
pub fn day_end(max_cars: i32, day: i32, rented: i32, returned: i32) -> (r: i32)
    requires
        0 <= day <= max_cars,
        0 <= rented <= day,
        0 <= returned <= max_cars - day + rented,
    ensures
        r == day - rented + returned,
        0 <= r <= max_cars,
{
    day - rented + returned
}

/// Every end-of-day state of a fleet of at most `max_cars` cars per location,
/// the first location's count slowest, with the transfers open in it, in
/// increasing order, and the counts each leaves at the start of the next day.
pub fn rental_transfers(max_cars: i32) -> (r: Vec<(State, Vec<(i32, State)>)>)
    requires
        0 <= max_cars < i32::MAX,
    ensures
        r@.len() == (max_cars + 1) * (max_cars + 1),
        forall|k: int|
            0 <= k < r@.len() ==> {
                let (s, moves) = #[trigger] r@[k];
                &&& 0 <= s.l1 <= max_cars
                &&& 0 <= s.l2 <= max_cars
                &&& s.l1 * (max_cars + 1) + s.l2 == k
                &&& moves@.len() == max_transfer(max_cars as int, s.l1 as int, s.l2 as int) - min_transfer(
                    max_cars as int,
                    s.l1 as int,
                    s.l2 as int,
                ) + 1
                &&& forall|j: int|
                    0 <= j < moves@.len() ==> {
                        let t = min_transfer(max_cars as int, s.l1 as int, s.l2 as int) + j;
                        #[trigger] moves@[j] == (t as i32, State { l1: (s.l1 - t) as i32, l2: (s.l2 + t) as i32 })
                    }
            },
{
    let mut all: Vec<(State, Vec<(i32, State)>)> = Vec::new();
    let mut l1: i32 = 0;
    while l1 <= max_cars
        invariant
            0 <= max_cars < i32::MAX,
            0 <= l1 <= max_cars + 1,
            all@.len() == l1 * (max_cars + 1),
            forall|k: int|
                0 <= k < all@.len() ==> {
                    let (s, moves) = #[trigger] all@[k];
                    &&& 0 <= s.l1 <= max_cars
                    &&& 0 <= s.l2 <= max_cars
                    &&& s.l1 * (max_cars + 1) + s.l2 == k
                    &&& moves@.len() == max_transfer(max_cars as int, s.l1 as int, s.l2 as int)
                        - min_transfer(max_cars as int, s.l1 as int, s.l2 as int) + 1
                    &&& forall|j: int|
                        0 <= j < moves@.len() ==> {
                            let t = min_transfer(max_cars as int, s.l1 as int, s.l2 as int) + j;
                            #[trigger] moves@[j] == (t as i32, State { l1: (s.l1 - t) as i32, l2: (s.l2 + t) as i32 })
                        }
                },
        decreases max_cars + 1 - l1,
    {
        let mut l2: i32 = 0;
        while l2 <= max_cars
            invariant
                0 <= max_cars < i32::MAX,
                0 <= l1 <= max_cars,
                0 <= l2 <= max_cars + 1,
                all@.len() == l1 * (max_cars + 1) + l2,
                forall|k: int|
                    0 <= k < all@.len() ==> {
                        let (s, moves) = #[trigger] all@[k];
                        &&& 0 <= s.l1 <= max_cars
                        &&& 0 <= s.l2 <= max_cars
                        &&& s.l1 * (max_cars + 1) + s.l2 == k
                        &&& moves@.len() == max_transfer(max_cars as int, s.l1 as int, s.l2 as int)
                            - min_transfer(max_cars as int, s.l1 as int, s.l2 as int) + 1
                        &&& forall|j: int|
                            0 <= j < moves@.len() ==> {
                                let t = min_transfer(max_cars as int, s.l1 as int, s.l2 as int) + j;
                                #[trigger] moves@[j] == (t as i32, State { l1: (s.l1 - t) as i32, l2: (s.l2 + t) as i32 })
                            }
                    },
            decreases max_cars + 1 - l2,
        {
            let (low, high) = transfer_range(max_cars, l1, l2);
            let mut moves: Vec<(i32, State)> = Vec::new();
            let mut t = low;
            while t <= high
                invariant
                    0 <= l1 <= max_cars,
                    0 <= l2 <= max_cars,
                    max_cars < i32::MAX,
                    low == min_transfer(max_cars as int, l1 as int, l2 as int),
                    high == max_transfer(max_cars as int, l1 as int, l2 as int),
                    low <= 0 <= high,
                    low <= t <= high + 1,
                    moves@.len() == t - low,
                    forall|j: int|
                        0 <= j < moves@.len() ==> {
                            let u = low + j;
                            #[trigger] moves@[j] == (u as i32, State { l1: (l1 - u) as i32, l2: (l2 + u) as i32 })
                        },
                decreases high + 1 - t,
            {
                proof {
                    lemma_transfers_keep_counts(max_cars as int, l1 as int, l2 as int, t as int);
                }
                moves.push((t, State::new(l1 - t, l2 + t)));
                t = t + 1;
            }
            all.push((State::new(l1, l2), moves));
            l2 = l2 + 1;
        }
        assert(l1 * (max_cars + 1) + (max_cars + 1) == (l1 + 1) * (max_cars + 1)) by (nonlinear_arith);
        l1 = l1 + 1;
    }
    all
}

/// `n!`, the product of `1 ..= n`.
pub open spec fn factorial_spec(n: nat) -> nat
    decreases n,
{
    if n == 0 {
        1
    } else {
        n * factorial_spec((n - 1) as nat)
    }
}

/// Relies on factorial::Factorial::factorial for `u128`: `n!`, which fits
/// for `n <= 34` (the crate panics on overflow).
#[verifier::external_body]
fn factorial_u128(n: u128) -> (r: u128)
    requires
        n <= 34,
    ensures
        r == factorial_spec(n as nat),
{
    factorial::Factorial::factorial(&n)
}

/// `n!` where it fits in a `u128`, that is for `n <= 34`.
pub fn checked_factorial(n: u32) -> (r: Option<u128>)
    ensures
        n <= 34 ==> r == Some(factorial_spec(n as nat) as u128),
        n > 34 ==> r is None,
{
    if n <= 34 {
        Some(factorial_u128(n as u128))
    } else {
        None
    }
}

} // verus!
