//! The rules of blackjack as one player against the dealer: card values,
//! soft aces, the dealer's drawing rule and the outcome of a round.
use vstd::prelude::*;

verus! {

#[derive(Clone, Copy, Debug, PartialEq, Eq, Hash, Structural)]
pub enum Card {
    Ace,
    Value(u32),
    Face,
}

#[derive(Clone, Copy, Debug, PartialEq, Eq, Hash, PartialOrd, Ord, Structural)]
pub enum Action {
    Hit,
    Stick,
}

/// A hand: its total, counting a usable ace as eleven, and whether it holds
/// such an ace.
#[derive(Clone, Copy, Debug, PartialEq, Eq, Hash, Structural)]
pub struct Hand {
    pub value: u32,
    pub usable_ace: bool,
}

/// What the player sees: the dealer's open card and the player's hand.
#[derive(Clone, Copy, Debug, PartialEq, Eq, Hash, Structural)]
pub struct State {
    pub dealer: Card,
    pub player: Hand,
}

impl Card {
    /// A number card lies in `2 ..= 10`.
    pub open spec fn wf(&self) -> bool {
        match self {
            Card::Value(v) => 2 <= *v <= 10,
            _ => true,
        }
    }

    /// The points of the card, an ace counted as one.
    pub open spec fn points(&self) -> int {
        match self {
            Card::Ace => 1,
            Card::Value(v) => *v as int,
            Card::Face => 10,
        }
    }

    pub fn is_ace(&self) -> (r: bool)
        ensures
            r == (*self is Ace),
    {
        match self {
            Card::Ace => true,
            _ => false,
        }
    }
}

/// The points of the cards, every ace counted as one.
pub open spec fn hard_total(cards: Seq<Card>) -> int
    decreases cards.len(),
{
    if cards.len() == 0 {
        0
    } else {
        hard_total(cards.drop_last()) + cards.last().points()
    }
}

/// Some card is an ace.
pub open spec fn has_ace(cards: Seq<Card>) -> bool {
    exists|i: int| 0 <= i < cards.len() && cards[i] is Ace
}

/// The hand the cards make: every ace counts one, but one of them counts
/// eleven when that keeps the total at 21 or below.
pub open spec fn hand_of(cards: Seq<Card>) -> Hand {
    let hard = hard_total(cards);
    let soft = has_ace(cards) && hard + 10 <= 21;
    Hand { value: (if soft { hard + 10 } else { hard }) as u32, usable_ace: soft }
}

pub open spec fn all_wf(cards: Seq<Card>) -> bool {
    forall|i: int| 0 <= i < cards.len() ==> (#[trigger] cards[i]).wf()
}

proof fn lemma_hard_total_bound(cards: Seq<Card>)
    requires
        all_wf(cards),
    ensures
        cards.len() <= hard_total(cards) <= 10 * cards.len(),
    decreases cards.len(),
{
    if cards.len() > 0 {
        let rest = cards.drop_last();
        assert(all_wf(rest)) by {
            assert forall|i: int| 0 <= i < rest.len() implies (#[trigger] rest[i]).wf() by {
                assert(rest[i] == cards[i]);
            }
        }
        assert(cards.last().wf());
        lemma_hard_total_bound(rest);
    }
}

impl Hand {
    /// A usable ace keeps the total within `11 ..= 21`.
    pub open spec fn wf(&self) -> bool {
        self.usable_ace ==> 11 <= self.value <= 21
    }

    /// The total with every ace counted as one.
    pub open spec fn hard(&self) -> int {
        if self.usable_ace {
            self.value - 10
        } else {
            self.value as int
        }
    }

    /// The hand after one more card: the card's points are added, and an ace
    /// counts eleven as long as the total stays at 21 or below.
    pub open spec fn with_card(&self, card: Card) -> Hand {
        let hard = self.hard() + card.points();
        let soft = (self.usable_ace || card is Ace) && hard + 10 <= 21;
        Hand { value: (if soft { hard + 10 } else { hard }) as u32, usable_ace: soft }
    }

    /// The empty hand.
    pub fn new() -> (r: Hand)
        ensures
            r == hand_of(Seq::<Card>::empty()),
    {
        Hand { value: 0, usable_ace: false }
    }

    /// The hand after one more card: the card's points are added, and an ace
    /// counts eleven as long as the total stays at 21 or below.
    pub fn add_card(&self, card: Card) -> (r: Hand)
        requires
            self.wf(),
            card.wf(),
            self.value <= u32::MAX - 11,
        ensures
            r.wf(),
            r == self.with_card(card),
            r.hard() == self.hard() + card.points(),
            r.usable_ace == ((self.usable_ace || card is Ace) && r.hard() + 10 <= 21),
    {
        let mut hand = *self;
        match card {
            Card::Ace => {
                if !hand.usable_ace && hand.value <= 10 {
                    hand.usable_ace = true;
                    hand.value = hand.value + 11;
                } else {
                    hand.value = hand.value + 1;
                }
            },
            Card::Value(v) => hand.value = hand.value + v,
            Card::Face => hand.value = hand.value + 10,
        }
        if hand.value > 21 && hand.usable_ace {
            hand.value = hand.value - 10;
            hand.usable_ace = false;
        }
        hand
    }

    /// The hand that the cards make, dealt in order.
    pub fn from_cards(cards: &Vec<Card>) -> (r: Hand)
        requires
            all_wf(cards@),
            cards@.len() <= 400_000_000,
        ensures
            r == hand_of(cards@),
    {
        let mut hand = Hand::new();
        assert(cards@.take(0) =~= Seq::<Card>::empty());
        for i in 0..cards.len()
            invariant
                all_wf(cards@),
                cards@.len() <= 400_000_000,
                hand == hand_of(cards@.take(i as int)),
                hand.wf(),
                hand.hard() == hard_total(cards@.take(i as int)),
        {
            let ghost before = cards@.take(i as int);
            let ghost after = cards@.take(i + 1);
            proof {
                assert(after.drop_last() =~= before);
                assert(all_wf(before)) by {
                    assert forall|j: int| 0 <= j < before.len() implies (#[trigger] before[j]).wf() by {
                        assert(before[j] == cards@[j]);
                    }
                }
                lemma_hard_total_bound(before);
                assert(has_ace(after) == (has_ace(before) || cards@[i as int] is Ace)) by {
                    if has_ace(before) {
                        let j = choose|j: int| 0 <= j < before.len() && before[j] is Ace;
                        assert(after[j] == before[j]);
                    }
                    if cards@[i as int] is Ace {
                        assert(after[i as int] == cards@[i as int]);
                    }
                    if has_ace(after) {
                        let j = choose|j: int| 0 <= j < after.len() && after[j] is Ace;
                        if j < i {
                            assert(before[j] == after[j]);
                        }
                    }
                }
            }
            hand = hand.add_card(cards[i]);
        }
        assert(cards@.take(cards@.len() as int) =~= cards@);
        hand
    }
}

/// The card that a number drawn in `1 ..= 13` stands for: 1 is an ace, 2 to
/// 10 are number cards, and 11 to 13 the three faces.
pub open spec fn card_of_draw_spec(r: u32) -> Card {
    if r == 1 {
        Card::Ace
    } else if r <= 10 {
        Card::Value(r)
    } else {
        Card::Face
    }
}

pub fn card_of_draw(r: u32) -> (c: Card)
    requires
        1 <= r <= 13,
    ensures
        c == card_of_draw_spec(r),
        c.wf(),
{
    if r == 1 {
        Card::Ace
    } else if r <= 10 {
        Card::Value(r)
    } else {
        Card::Face
    }
}

/// A card drawn from an endless shoe: each of the thirteen ranks alike.
pub fn random_card() -> (c: Card)
    ensures
        c.wf(),
        exists|r: u32| 1 <= r <= 13 && c == #[trigger] card_of_draw_spec(r),
{
    let r: u32 = rand::random::<u32>() % 13 + 1;
    card_of_draw(r)
}

impl State {
    /// The open card is a card, and the player's hand has not gone over 21.
    pub open spec fn wf(&self) -> bool {
        self.dealer.wf() && self.player.wf() && self.player.value <= 21
    }
}

/// The reward once the player sticks with `player` against the dealer's
/// final `dealer`: a dealer over 21 loses, else the higher total wins.
pub open spec fn stick_reward_spec(player: int, dealer: int) -> int {
    if dealer > 21 {
        1
    } else if player > dealer {
        1
    } else if player < dealer {
        -1
    } else {
        0
    }
}

/// What hitting brings when `card` is dealt: over 21 the round ends lost,
/// else it goes on with the larger hand and no reward yet.
pub open spec fn hit_outcome(state: State, card: Card) -> (Option<State>, i32) {
    let player = state.player.with_card(card);
    if player.value > 21 {
        (None, -1i32)
    } else {
        (Some(State { dealer: state.dealer, player: player }), 0i32)
    }
}

pub fn stick_reward(player: u32, dealer: u32) -> (r: i32)
    ensures
        r == stick_reward_spec(player as int, dealer as int),
{
    if dealer > 21 {
        1
    } else if player > dealer {
        1
    } else if player < dealer {
        -1
    } else {
        0
    }
}

pub fn hit_result(state: &State, card: Card) -> (r: (Option<State>, i32))
    requires
        state.wf(),
        card.wf(),
    ensures
        r == hit_outcome(*state, card),
        r.0 matches Some(s) ==> s.wf() && s.player.hard() > state.player.hard(),
{
    let player = state.player.add_card(card);
    if player.value > 21 {
        (None, -1)
    } else {
        (Some(State { dealer: state.dealer, player: player }), 0)
    }
}

/// The hand `start` becomes once `cards` are dealt to it in order.
pub open spec fn hand_after(start: Hand, cards: Seq<Card>) -> Hand
    decreases cards.len(),
{
    if cards.len() == 0 {
        start
    } else {
        hand_after(start, cards.drop_last()).with_card(cards.last())
    }
}

/// The dealer's rule: from `start`, `cards` are drawn one by one while the
/// total is below 17, and then no more.
pub open spec fn dealer_stops(start: Hand, cards: Seq<Card>) -> bool {
    &&& forall|i: int| 0 <= i < cards.len() ==> (#[trigger] hand_after(start, cards.take(i))).value < 17
    &&& hand_after(start, cards).value >= 17
}

/// The dealer's first hand: the open card alone (the hidden one is dealt
/// when the dealer draws).
pub open spec fn dealer_start(open_card: Card) -> Hand {
    hand_of(Seq::<Card>::empty()).with_card(open_card)
}

proof fn lemma_hand_after_push(start: Hand, cards: Seq<Card>, c: Card)
    ensures
        hand_after(start, cards.push(c)) == hand_after(start, cards).with_card(c),
        forall|i: int| 0 <= i <= cards.len() ==> #[trigger] cards.push(c).take(i) == cards.take(i),
{
    assert(cards.push(c).drop_last() =~= cards);
    assert forall|i: int| 0 <= i <= cards.len() implies #[trigger] cards.push(c).take(i) == cards.take(i) by {
        assert(cards.push(c).take(i) =~= cards.take(i));
    }
}

/// The dealer's final hand when the dealer draws from `draws` in order, with
/// the number of cards drawn; `None` when the cards run out below 17.
pub fn dealer_hand_from(open_card: Card, draws: &Vec<Card>) -> (r: Option<(Hand, usize)>)
    requires
        open_card.wf(),
        all_wf(draws@),
    ensures
        r matches Some((h, n)) ==> n <= draws@.len() && dealer_stops(dealer_start(open_card), draws@.take(n as int))
            && h == hand_after(dealer_start(open_card), draws@.take(n as int)),
        r is None ==> forall|i: int|
            0 <= i <= draws@.len() ==> (#[trigger] hand_after(dealer_start(open_card), draws@.take(i))).value < 17,
{
    let ghost start = dealer_start(open_card);
    let mut dealer = Hand::new().add_card(open_card);
    let mut n: usize = 0;
    assert(draws@.take(0) =~= Seq::<Card>::empty());
    while n < draws.len() && dealer.value < 17
        invariant
            all_wf(draws@),
            n <= draws@.len(),
            dealer.wf(),
            dealer.value <= 26,
            dealer == hand_after(start, draws@.take(n as int)),
            forall|i: int| 0 <= i < n ==> (#[trigger] hand_after(start, draws@.take(i))).value < 17,
        decreases draws@.len() - n,
    {
        let c = draws[n];
        proof {
            assert(draws@.take(n + 1) =~= draws@.take(n as int).push(c));
            lemma_hand_after_push(start, draws@.take(n as int), c);
            assert(draws@[n as int].wf());
        }
        dealer = dealer.add_card(c);
        n = n + 1;
    }
    if dealer.value >= 17 {
        proof {
            let cards = draws@.take(n as int);
            assert forall|i: int| 0 <= i < cards.len() implies (#[trigger] hand_after(start, cards.take(i))).value
                < 17 by {
                assert(cards.take(i) =~= draws@.take(i));
            }
        }
        Some((dealer, n))
    } else {
        assert(draws@.take(draws@.len() as int) =~= draws@);
        None
    }
}

/// The dealer's final hand: from the open card (the hidden one is dealt
/// now), the dealer draws until the total reaches 17.
pub fn dealer_hand(open_card: Card) -> (r: Hand)
    requires
        open_card.wf(),
    ensures
        r.wf(),
        17 <= r.value <= 26,
        exists|cards: Seq<Card>|
            all_wf(cards) && #[trigger] dealer_stops(dealer_start(open_card), cards) && r == hand_after(
                dealer_start(open_card),
                cards,
            ),
{
    let ghost start = dealer_start(open_card);
    let ghost mut drawn: Seq<Card> = Seq::empty();
    let mut dealer = Hand::new().add_card(open_card);
    while dealer.value < 17
        invariant
            dealer.wf(),
            dealer.value <= 26,
            all_wf(drawn),
            dealer == hand_after(start, drawn),
            forall|i: int| 0 <= i < drawn.len() ==> (#[trigger] hand_after(start, drawn.take(i))).value < 17,
        decreases 27 - dealer.hard(),
    {
        let c = random_card();
        proof {
            lemma_hand_after_push(start, drawn, c);
            assert(drawn.push(c).take(drawn.len() as int) =~= drawn);
            assert(all_wf(drawn.push(c))) by {
                assert forall|i: int| 0 <= i < drawn.push(c).len() implies (#[trigger] drawn.push(c)[i]).wf() by {
                    if i < drawn.len() {
                        assert(drawn.push(c)[i] == drawn[i]);
                    }
                }
            }
            drawn = drawn.push(c);
        }
        dealer = dealer.add_card(c);
    }
    assert(dealer_stops(start, drawn));
    dealer
}

/// A first state: the dealer's open card and the player's first two cards.
pub fn start_state() -> (r: State)
    ensures
        r.wf(),
        exists|a: Card, b: Card| a.wf() && b.wf() && r.player == hand_of(Seq::<Card>::empty()).with_card(a).with_card(b),
{
    let dealer = random_card();
    let a = random_card();
    let b = random_card();
    let player = Hand::new().add_card(a).add_card(b);
    State { dealer: dealer, player: player }
}

/// The next state and the reward for taking `action`: sticking ends the
/// round once the dealer has drawn; hitting deals one card to the player.
pub fn next_state(state: &State, action: &Action) -> (r: (Option<State>, i32))
    requires
        state.wf(),
    ensures
        *action == Action::Stick ==> r.0 is None && exists|cards: Seq<Card>|
            all_wf(cards) && #[trigger] dealer_stops(dealer_start(state.dealer), cards) && r.1
                == stick_reward_spec(
                state.player.value as int,
                hand_after(dealer_start(state.dealer), cards).value as int,
            ),
        *action == Action::Hit ==> exists|c: Card| c.wf() && r == hit_outcome(*state, c),
        r.0 matches Some(s) ==> s.wf() && s.player.hard() > state.player.hard(),
{
    if *action == Action::Stick {
        let dealer = dealer_hand(state.dealer);
        return (None, stick_reward(state.player.value, dealer.value));
    }
    let card = random_card();
    hit_result(state, card)
}

/// Hits or sticks, like a coin.
pub fn random_action(state: &State) -> Action {
    if rand::random::<bool>() {
        Action::Hit
    } else {
        Action::Stick
    }
}

/// Sticks only on 20 or more.
pub fn stick_at_20_policy(state: &State) -> (r: Action)
    ensures
        r == (if state.player.value < 20 {
            Action::Hit
        } else {
            Action::Stick
        }),
{
    if state.player.value < 20 {
        Action::Hit
    } else {
        Action::Stick
    }
}

/// Episodes end: along states that each follow the one before (every step
/// that does not end an episode raises the hard total), there are at most 22
/// states, since a state's hard total lies within `0 ..= 21`.
pub proof fn lemma_episodes_end(states: Seq<State>)
    requires
        forall|i: int| 0 <= i < states.len() ==> (#[trigger] states[i]).wf(),
        forall|i: int|
            0 <= i < states.len() - 1 ==> states[i].player.hard() < (#[trigger] states[i + 1]).player.hard(),
    ensures
        states.len() <= 22,
{
    if states.len() > 22 {
        assert forall|k: int| 0 <= k < states.len() implies (#[trigger] states[k]).player.hard() >= k by {
            lemma_hard_at_least_index(states, k);
        }
        assert(states[22].wf());
    }
}

proof fn lemma_hard_at_least_index(states: Seq<State>, k: int)
    requires
        forall|i: int| 0 <= i < states.len() ==> (#[trigger] states[i]).wf(),
        forall|i: int|
            0 <= i < states.len() - 1 ==> states[i].player.hard() < (#[trigger] states[i + 1]).player.hard(),
        0 <= k < states.len(),
    ensures
        states[k].player.hard() >= k,
    decreases k,
{
    assert(states[k].wf());
    assert(states[k].player.wf());
    if k > 0 {
        lemma_hard_at_least_index(states, k - 1);
        let j = k - 1;
        assert(states[j].player.hard() < states[j + 1].player.hard());
    }
}

} // verus!
