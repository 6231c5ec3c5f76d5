//! The gambler's bets: with some money in hand the gambler stakes part of it
//! on a coin flip, and reaching the limit wins the game.
use vstd::prelude::*;

verus! {

/// Reaching this much money wins the game.
pub const LIMIT: i32 = 100;

/// Where a bet of `bet` with `money` in hand can lead.
#[derive(Clone, Copy, Debug, PartialEq, Eq, Hash, Structural)]
pub struct BetOutcomes {
    /// The money after a won flip.
    pub win: i32,
    /// A won flip reaches the limit.
    pub reaches_limit: bool,
    /// The money after a lost flip.
    pub lose: i32,
}

/// The largest bet: no more than the money in hand, nor than what is
/// missing to reach the limit.
pub open spec fn max_bet_spec(money: int) -> int {
    if money < LIMIT - money {
        money
    } else {
        LIMIT - money
    }
}

pub fn max_bet(money: i32) -> (r: i32)
    requires
        0 < money < LIMIT,
    ensures
        r == max_bet_spec(money as int),
        1 <= r <= LIMIT / 2,
{
    if money < LIMIT - money {
        money
    } else {
        LIMIT - money
    }
}

/// Where a bet of `bet` with `money` in hand leads.
pub open spec fn outcomes_spec(money: int, bet: int) -> BetOutcomes {
    BetOutcomes {
        win: (money + bet) as i32,
        reaches_limit: money + bet == LIMIT,
        lose: (money - bet) as i32,
    }
}

/// The money after each flip of a bet of `bet` with `money` in hand; both
/// stay within `0 ..= LIMIT`.
pub fn bet_outcomes(money: i32, bet: i32) -> (r: BetOutcomes)
    requires
        0 < money < LIMIT,
        0 <= bet <= max_bet_spec(money as int),
    ensures
        r == outcomes_spec(money as int, bet as int),
        r.win == money + bet,
        r.lose == money - bet,
        r.reaches_limit == (money + bet == LIMIT),
        0 <= r.lose <= r.win <= LIMIT,
{
    let win = money + bet;
    BetOutcomes {
        win: if win < LIMIT { win } else { LIMIT },
        reaches_limit: win >= LIMIT,
        lose: if money - bet > 0 { money - bet } else { 0 },
    }
}

/// Every amount of money from 1 up to below the limit, in order, with the
/// outcomes of each bet open there: the bet is the position in the list.
pub fn coin_transitions() -> (r: Vec<(i32, Vec<BetOutcomes>)>)
    ensures
        r@.len() == LIMIT - 1,
        forall|k: int|
            0 <= k < r@.len() ==> {
                let (money, bets) = #[trigger] r@[k];
                &&& money == k + 1
                &&& bets@.len() == max_bet_spec(money as int) + 1
                &&& forall|b: int| 0 <= b < bets@.len() ==> bets@[b] == outcomes_spec(money as int, b)
            },
{
    let mut all: Vec<(i32, Vec<BetOutcomes>)> = Vec::new();
    let mut money: i32 = 1;
    while money < LIMIT
        invariant
            1 <= money <= LIMIT,
            all@.len() == money - 1,
            forall|k: int|
                0 <= k < all@.len() ==> {
                    let (m, bets) = #[trigger] all@[k];
                    &&& m == k + 1
                    &&& bets@.len() == max_bet_spec(m as int) + 1
                    &&& forall|b: int| 0 <= b < bets@.len() ==> bets@[b] == outcomes_spec(m as int, b)
                },
        decreases LIMIT - money,
    {
        let top = max_bet(money);
        let mut bets: Vec<BetOutcomes> = Vec::new();
        let mut bet: i32 = 0;
        while bet <= top
            invariant
                0 < money < LIMIT,
                top == max_bet_spec(money as int),
                1 <= top <= LIMIT / 2,
                0 <= bet <= top + 1,
                bets@.len() == bet,
                forall|b: int| 0 <= b < bets@.len() ==> bets@[b] == outcomes_spec(money as int, b),
            decreases top + 1 - bet,
        {
            bets.push(bet_outcomes(money, bet));
            bet = bet + 1;
        }
        all.push((money, bets));
        money = money + 1;
    }
    all
}

} // verus!
