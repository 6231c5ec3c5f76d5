use rl_solver::blackjack::{
    card_of_draw, dealer_hand, dealer_hand_from, hit_result, next_state, random_card, start_state, stick_at_20_policy, stick_reward, Action, Card,
    Hand, State,
};
use rl_solver::car_rental::{checked_factorial, day_end, rental_transfers, transfer_range, State as Lots};
use rl_solver::coin_bet::{bet_outcomes, coin_transitions, max_bet};
use rl_solver::gridworld;
use rl_solver::gridworld::{move_to, Action as G, State as S};
use rl_solver::random::{index_of_draw, random_index};

#[test]
fn hand_value_test() {
    assert_eq!(Hand::from_cards(&vec![Card::Ace]).value, 11);
    assert_eq!(Hand::from_cards(&vec![Card::Ace, Card::Ace]).value, 12);
    assert_eq!(Hand::from_cards(&vec![Card::Ace, Card::Ace, Card::Ace]).value, 13);
    assert_eq!(Hand::from_cards(&vec![Card::Ace, Card::Ace, Card::Ace, Card::Ace]).value, 14);

    for i in 2..=10 {
        assert_eq!(Hand::from_cards(&vec![Card::Value(i)]).value, i);
    }

    assert_eq!(Hand::from_cards(&vec![Card::Face]).value, 10);

    assert_eq!(Hand::from_cards(&vec![Card::Face, Card::Face, Card::Ace]).value, 21);
}

#[test]
fn soft_ace_turns_hard_past_21() {
    let h = Hand::from_cards(&vec![Card::Ace, Card::Value(6)]);
    assert_eq!((h.value, h.usable_ace), (17, true));
    let h = h.add_card(Card::Face);
    assert_eq!((h.value, h.usable_ace), (17, false));
    assert!(Card::Ace.is_ace());
    assert!(!Card::Face.is_ace());
}

#[test]
fn stick_rewards() {
    assert_eq!(stick_reward(15, 22), 1);
    assert_eq!(stick_reward(20, 18), 1);
    assert_eq!(stick_reward(17, 19), -1);
    assert_eq!(stick_reward(18, 18), 0);
}

#[test]
fn hitting_over_21_loses() {
    let player = Hand::from_cards(&vec![Card::Face, Card::Value(5)]);
    let s = State { dealer: Card::Value(7), player };
    assert_eq!(hit_result(&s, Card::Face), (None, -1));
    let (next, reward) = hit_result(&s, Card::Value(3));
    assert_eq!(reward, 0);
    assert_eq!(next.unwrap().player.value, 18);
}

#[test]
fn dealer_stops_between_17_and_26() {
    for _ in 0..200 {
        let d = dealer_hand(random_card());
        assert!(d.value >= 17 && d.value <= 26);
    }
}

#[test]
fn episodes_end() {
    for _ in 0..200 {
        let mut s = start_state();
        assert!(s.player.value >= 2 && s.player.value <= 21);
        let mut steps = 0;
        loop {
            let (next, reward) = next_state(&s, &stick_at_20_policy(&s));
            assert!(reward >= -1 && reward <= 1);
            steps += 1;
            assert!(steps <= 21);
            match next {
                Some(n) => s = n,
                None => break,
            }
        }
    }
}

#[test]
fn stick_at_20() {
    let s = State { dealer: Card::Ace, player: Hand::from_cards(&vec![Card::Face, Card::Value(9)]) };
    assert_eq!(stick_at_20_policy(&s), Action::Hit);
    let s = State { dealer: Card::Ace, player: Hand::from_cards(&vec![Card::Face, Card::Face]) };
    assert_eq!(stick_at_20_policy(&s), Action::Stick);
}

#[test]
fn grid_moves_stop_at_edges() {
    let corner = S::new(0, 3);
    assert_eq!(move_to(4, 4, &corner, G::Up), S::new(0, 3));
    assert_eq!(move_to(4, 4, &corner, G::Right), S::new(0, 3));
    assert_eq!(move_to(4, 4, &corner, G::Down), S::new(1, 3));
    assert_eq!(move_to(4, 4, &corner, G::Left), S::new(0, 2));
    assert!(gridworld::is_final(4, 4, &S::new(0, 0)));
    assert!(gridworld::is_final(4, 4, &S::new(3, 3)));
    assert!(!gridworld::is_final(4, 4, &S::new(3, 0)));
    assert!(gridworld::transitions(4, 4, &S::new(3, 3)).is_empty());
    assert_eq!(
        gridworld::transitions(4, 4, &S::new(1, 0)),
        vec![(G::Up, S::new(0, 0)), (G::Down, S::new(2, 0)), (G::Left, S::new(1, 0)), (G::Right, S::new(1, 1))]
    );
}

#[test]
fn coin_bets() {
    assert_eq!(max_bet(1), 1);
    assert_eq!(max_bet(30), 30);
    assert_eq!(max_bet(70), 30);
    let o = bet_outcomes(70, 30);
    assert_eq!((o.win, o.reaches_limit, o.lose), (100, true, 40));
    let o = bet_outcomes(10, 0);
    assert_eq!((o.win, o.reaches_limit, o.lose), (10, false, 10));
}

#[test]
fn car_transfers() {
    assert_eq!(transfer_range(20, 10, 10), (-5, 5));
    assert_eq!(transfer_range(20, 2, 19), (-5, 1));
    assert_eq!(transfer_range(20, 18, 1), (-1, 5));
    assert_eq!(transfer_range(20, 18, 17), (-2, 3));
    assert_eq!(transfer_range(20, 0, 0), (0, 0));
    assert_eq!(transfer_range(20, 20, 3), (0, 5));
    assert_eq!(day_end(20, 12, 4, 12), 20);
}

#[test]
fn factorials() {
    assert_eq!(checked_factorial(0), Some(1));
    assert_eq!(checked_factorial(5), Some(120));
    assert_eq!(checked_factorial(34), Some(295232799039604140847618609643520000000));
    assert_eq!(checked_factorial(35), None);
}

#[test]
fn random_index_in_range() {
    for len in 1..50usize {
        assert!(random_index(len) < len);
    }
}

#[test]
fn grid_table_lists_every_square_once() {
    let table = gridworld::grid_transitions(3, 5);
    assert_eq!(table.len(), 15);
    for (k, (s, moves)) in table.iter().enumerate() {
        assert_eq!((s.row * 5 + s.col) as usize, k);
        assert_eq!(moves.len(), if gridworld::is_final(3, 5, s) { 0 } else { 4 });
    }
    assert_eq!(table[0].0, S::new(0, 0));
    assert_eq!(table[14].0, S::new(2, 4));
    assert_eq!(table[7].1[1], (G::Down, S::new(2, 2)));
}

#[test]
fn coin_table_covers_every_amount() {
    let table = coin_transitions();
    assert_eq!(table.len(), 99);
    assert_eq!(table[0].0, 1);
    assert_eq!(table[0].1.len(), 2);
    assert_eq!(table[49].0, 50);
    assert_eq!(table[49].1.len(), 51);
    let o = table[49].1[50];
    assert_eq!((o.win, o.reaches_limit, o.lose), (100, true, 0));
    assert_eq!(table[98].1.len(), 2);
    let o = table[98].1[1];
    assert_eq!((o.win, o.reaches_limit, o.lose), (100, true, 98));
}

#[test]
fn rental_table_lists_transfers() {
    let table = rental_transfers(20);
    assert_eq!(table.len(), 441);
    let (s, moves) = &table[10 * 21 + 10];
    assert_eq!(*s, Lots::new(10, 10));
    assert_eq!(moves.len(), 11);
    assert_eq!(moves[0], (-5, Lots::new(15, 5)));
    assert_eq!(moves[10], (5, Lots::new(5, 15)));
    let (s, moves) = &table[0];
    assert_eq!(*s, Lots::new(0, 0));
    assert_eq!(moves, &vec![(0, Lots::new(0, 0))]);
    let (_, moves) = &table[20 * 21 + 18];
    assert_eq!(moves.first(), Some(&(0, Lots::new(20, 18))));
    assert_eq!(moves.last(), Some(&(2, Lots::new(18, 20))));
}

#[test]
fn draws_map_to_indices() {
    assert_eq!(index_of_draw(17, 5), 2);
    assert_eq!(index_of_draw(4, 5), 4);
    assert_eq!(index_of_draw(usize::MAX, 10), 5);
    assert_eq!(index_of_draw(123, 1), 0);
}

#[test]
fn draws_map_to_cards() {
    assert_eq!(card_of_draw(1), Card::Ace);
    assert_eq!(card_of_draw(2), Card::Value(2));
    assert_eq!(card_of_draw(10), Card::Value(10));
    assert_eq!(card_of_draw(11), Card::Face);
    assert_eq!(card_of_draw(13), Card::Face);
}

#[test]
fn dealer_draws_until_17() {
    // 6, then 5 and 4 make 15, then a face: 25, over 21.
    let draws = vec![Card::Value(5), Card::Value(4), Card::Face, Card::Ace];
    let (h, n) = dealer_hand_from(Card::Value(6), &draws).unwrap();
    assert_eq!((h.value, n), (25, 3));
    // An ace with a 6 is a soft 17: the dealer stops at once.
    let (h, n) = dealer_hand_from(Card::Ace, &vec![Card::Value(6), Card::Face]).unwrap();
    assert_eq!((h.value, h.usable_ace, n), (17, true, 1));
    // A face alone is at least 17 only after one more card.
    let (h, n) = dealer_hand_from(Card::Face, &vec![Card::Value(7), Card::Value(2)]).unwrap();
    assert_eq!((h.value, n), (17, 1));
    // Running out of cards below 17.
    assert_eq!(dealer_hand_from(Card::Value(2), &vec![Card::Value(3), Card::Value(4)]), None);
}
