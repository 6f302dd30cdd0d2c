use tx_fee_maximizer::candidate::{Candidate, INFEASIBLE};
use tx_fee_maximizer::elite::rank_elite;
use tx_fee_maximizer::generator::{place, random_selection, roulette_wheel_selection};
use tx_fee_maximizer::learning::{ceiling, learn, update_global_states};
use tx_fee_maximizer::search::{
    chosen_transactions, close_generation, conclude, initial_state, maximize_fee, search_agent,
};
use tx_fee_maximizer::simulator::evaluate;
use tx_fee_maximizer::{system_address, Address, FeeMaximizer, Ledger, Request, Transaction};

fn address(name: &str) -> Address {
    Address::from_string(name.to_string()).unwrap()
}

fn ledger(entries: &[(&str, i64)]) -> Ledger {
    let mut ledger = Ledger::new();
    for &(name, balance) in entries {
        ledger.deposit(&address(name), balance);
    }
    ledger
}

fn request(legs: &[(&str, &str, i64, i64)]) -> Request {
    let mut req = Request::init_empty();
    for &(from, to, amount, fee) in legs {
        req.add_transaction(Transaction { from: address(from), to: address(to), amount, fee })
            .unwrap();
    }
    req
}

fn balances(ledger: &Ledger) -> Vec<(String, i64)> {
    let mut all = Vec::new();
    for i in 0..ledger.len() {
        let name = String::from_utf8(ledger.address_at(i).as_bytes().clone()).unwrap();
        all.push((name, ledger.balance_at(i)));
    }
    all.sort();
    all
}

fn named(entries: &[(&str, i64)]) -> Vec<(String, i64)> {
    let mut all: Vec<(String, i64)> =
        entries.iter().map(|&(name, balance)| (name.to_string(), balance)).collect();
    all.sort();
    all
}

fn legs(txs: &[Transaction]) -> Vec<(String, String, i64, i64)> {
    txs.iter()
        .map(|tx| {
            (
                String::from_utf8(tx.from.as_bytes().clone()).unwrap(),
                String::from_utf8(tx.to.as_bytes().clone()).unwrap(),
                tx.amount,
                tx.fee,
            )
        })
        .collect()
}

fn leg(from: &str, to: &str, amount: i64, fee: i64) -> (String, String, i64, i64) {
    (from.to_string(), to.to_string(), amount, fee)
}

fn scored(fitness: i64) -> Candidate {
    let after = if fitness == INFEASIBLE { None } else { Some(Ledger::new()) };
    (after, fitness, Vec::new(), Vec::new())
}

fn is_permutation(order: &[usize], n: usize) -> bool {
    let mut seen = vec![false; n];
    for &q in order {
        if q >= n || seen[q] {
            return false;
        }
        seen[q] = true;
    }
    order.len() == n
}

#[test]
fn elite_is_the_best_by_fitness_best_first() {
    let candidates: Vec<Candidate> =
        [3, INFEASIBLE, 9, 0, 7, INFEASIBLE, 8].iter().map(|&f| scored(f)).collect();
    assert_eq!(rank_elite(&candidates, 3), vec![2, 6, 4]);
    assert_eq!(rank_elite(&candidates, 1), vec![2]);
    assert_eq!(rank_elite(&candidates, 0), Vec::<usize>::new());
    assert_eq!(rank_elite(&candidates, 5), vec![2, 6, 4, 0, 3]);
}

#[test]
fn elite_takes_all_where_there_are_fewer() {
    let candidates: Vec<Candidate> = [1, 5, INFEASIBLE].iter().map(|&f| scored(f)).collect();
    assert_eq!(rank_elite(&candidates, 10), vec![1, 0, 2]);
    assert_eq!(rank_elite(&Vec::new(), 4), Vec::<usize>::new());
}

#[test]
fn elite_among_equals_holds_no_candidate_twice() {
    let candidates: Vec<Candidate> = [4, 4, 4, 4, 2, 4].iter().map(|&f| scored(f)).collect();
    let elite = rank_elite(&candidates, 3);
    assert_eq!(elite.len(), 3);
    assert!(elite.iter().all(|&i| candidates[i].1 == 4));
    assert!(elite[0] != elite[1] && elite[1] != elite[2] && elite[0] != elite[2]);
}

#[test]
fn infeasible_candidates_lose_to_every_feasible_one() {
    let candidates: Vec<Candidate> =
        [INFEASIBLE, INFEASIBLE, 0, INFEASIBLE].iter().map(|&f| scored(f)).collect();
    assert_eq!(rank_elite(&candidates, 1), vec![2]);
    assert_eq!(INFEASIBLE, -1);
}

#[test]
fn survivor_adds_one_for_each_included_transfer() {
    let mut selection_weights = vec![vec![0usize, 5], vec![7], vec![2, 2, 2]];
    let mut request_order_weight = vec![0usize, 0, 0];
    let mut limit = 0usize;
    update_global_states(
        &mut selection_weights,
        &mut request_order_weight,
        &mut limit,
        &[vec![true, false], vec![true], vec![false, true, true]],
        &[2, 0, 1],
    );
    assert_eq!(selection_weights, vec![vec![1, 5], vec![8], vec![2, 3, 3]]);
}

#[test]
fn survivor_rewards_early_places() {
    let mut selection_weights: Vec<Vec<usize>> = vec![vec![], vec![], vec![], vec![]];
    let mut request_order_weight = vec![10usize, 20, 30, 40];
    let mut limit = 7usize;
    update_global_states(
        &mut selection_weights,
        &mut request_order_weight,
        &mut limit,
        &[vec![], vec![], vec![], vec![]],
        &[2, 0, 3, 1],
    );
    assert_eq!(request_order_weight, vec![12, 20, 33, 41]);
    assert_eq!(limit, 41);
}

#[test]
fn survivor_with_a_short_mask_or_order_changes_the_rest_not() {
    let mut selection_weights = vec![vec![1usize, 1], vec![1, 1]];
    let mut request_order_weight = vec![0usize, 0];
    let mut limit = 9usize;
    update_global_states(
        &mut selection_weights,
        &mut request_order_weight,
        &mut limit,
        &[vec![true]],
        &[],
    );
    assert_eq!(selection_weights, vec![vec![2, 1], vec![1, 1]]);
    assert_eq!(request_order_weight, vec![0, 0]);
    assert_eq!(limit, 1);
}

#[test]
fn ceiling_is_the_maximum_and_at_least_one() {
    assert_eq!(ceiling(&[3, 9, 2]), 9);
    assert_eq!(ceiling(&[0, 0]), 1);
    assert_eq!(ceiling(&[]), 1);
    assert_eq!(ceiling(&[1]), 1);
    assert_eq!(ceiling(&[usize::MAX, 4]), usize::MAX);
}

#[test]
fn learning_counts_the_feasible_survivors_only() {
    let feasible = |selected: Vec<Vec<bool>>, order: Vec<usize>| -> Candidate {
        (Some(Ledger::new()), 5, selected, order)
    };
    let candidates: Vec<Candidate> = vec![
        feasible(vec![vec![true, true], vec![false]], vec![0, 1]),
        (None, INFEASIBLE, vec![vec![true, true], vec![true]], vec![1, 0]),
        feasible(vec![vec![true, false], vec![true]], vec![1, 0]),
        feasible(vec![vec![false, false], vec![true]], vec![0, 1]),
    ];
    let mut selection_weights = vec![vec![40usize, 41], vec![42]];
    let mut request_order_weight = vec![43usize, 44];
    let mut limit = 45usize;
    learn(
        &candidates,
        &vec![0, 1, 2],
        &mut selection_weights,
        &mut request_order_weight,
        &mut limit,
    );
    assert_eq!(selection_weights, vec![vec![2, 1], vec![1]]);
    assert_eq!(request_order_weight, vec![1, 1]);
    assert_eq!(limit, 1);

    learn(
        &candidates,
        &vec![3, 0],
        &mut selection_weights,
        &mut request_order_weight,
        &mut limit,
    );
    assert_eq!(selection_weights, vec![vec![1, 1], vec![1]]);
    assert_eq!(request_order_weight, vec![2, 0]);
    assert_eq!(limit, 2);
}

#[test]
fn learning_from_nobody_leaves_zero_weights_and_ceiling_one() {
    let candidates: Vec<Candidate> =
        vec![(None, INFEASIBLE, vec![vec![true], vec![true]], vec![1, 0])];
    let mut selection_weights = vec![vec![3usize], vec![4]];
    let mut request_order_weight = vec![5usize, 6];
    let mut limit = 6usize;
    learn(&candidates, &vec![0], &mut selection_weights, &mut request_order_weight, &mut limit);
    assert_eq!(selection_weights, vec![vec![0], vec![0]]);
    assert_eq!(request_order_weight, vec![0, 0]);
    assert_eq!(limit, 1);
    learn(&candidates, &vec![], &mut selection_weights, &mut request_order_weight, &mut limit);
    assert_eq!(selection_weights, vec![vec![0], vec![0]]);
    assert_eq!(limit, 1);
}

#[test]
fn closing_a_generation_names_the_best_and_teaches_the_weights() {
    let mut candidates: Vec<Candidate> = vec![
        (Some(ledger(&[("System", 3)])), 3, vec![vec![true], vec![false, true]], vec![1, 0]),
        (None, INFEASIBLE, vec![vec![true], vec![true, true]], vec![0, 1]),
        (Some(ledger(&[("System", 9)])), 9, vec![vec![false], vec![true, true]], vec![1, 0]),
        (Some(ledger(&[("System", 1)])), 1, vec![vec![true], vec![true, false]], vec![0, 1]),
    ];
    let mut selection_weights = vec![vec![1usize], vec![1, 1]];
    let mut request_order_weight = vec![1usize, 1];
    let mut limit = 2usize;
    let mut weight_upper_bound = 2usize;
    let (elite, incumbent) = close_generation(
        &mut candidates,
        2,
        &mut selection_weights,
        &mut weight_upper_bound,
        &mut request_order_weight,
        &mut limit,
    );
    assert_eq!(weight_upper_bound, 2);
    assert_eq!(elite, vec![2, 0]);
    let (after, fitness, selected, order) = incumbent.unwrap();
    assert_eq!(fitness, 9);
    assert_eq!(balances(&after.unwrap()), named(&[("System", 9)]));
    assert_eq!(selected, vec![vec![false], vec![true, true]]);
    assert_eq!(order, vec![1, 0]);
    assert_eq!(selection_weights, vec![vec![1], vec![1, 2]]);
    assert_eq!(request_order_weight, vec![0, 2]);
    assert_eq!(limit, 2);
    assert_eq!(candidates.len(), 3);
}

#[test]
fn closing_a_generation_without_a_feasible_candidate_names_an_infeasible_one() {
    let mut candidates: Vec<Candidate> = vec![
        (None, INFEASIBLE, vec![vec![true]], vec![0]),
        (None, INFEASIBLE, vec![vec![true]], vec![0]),
    ];
    let mut selection_weights = vec![vec![5usize]];
    let mut request_order_weight = vec![7usize];
    let mut limit = 7usize;
    let mut weight_upper_bound = 2usize;
    let (elite, incumbent) = close_generation(
        &mut candidates,
        1,
        &mut selection_weights,
        &mut weight_upper_bound,
        &mut request_order_weight,
        &mut limit,
    );
    assert_eq!(weight_upper_bound, 1);
    assert_eq!(elite.len(), 1);
    let (after, fitness, _, _) = incumbent.unwrap();
    assert!(after.is_none());
    assert_eq!(fitness, INFEASIBLE);
    assert_eq!(selection_weights, vec![vec![0]]);
    assert_eq!(request_order_weight, vec![0]);
    assert_eq!(limit, 1);
}

#[test]
fn closing_a_generation_without_survivors_names_nobody() {
    let mut candidates: Vec<Candidate> =
        vec![(Some(ledger(&[("System", 3)])), 3, vec![vec![true]], vec![0])];
    let mut selection_weights = vec![vec![5usize]];
    let mut request_order_weight = vec![7usize];
    let mut limit = 7usize;
    let mut weight_upper_bound = 2usize;
    let (elite, incumbent) = close_generation(
        &mut candidates,
        0,
        &mut selection_weights,
        &mut weight_upper_bound,
        &mut request_order_weight,
        &mut limit,
    );
    assert_eq!(weight_upper_bound, 0);
    assert_eq!(elite.len(), 0);
    assert!(incumbent.is_none());
    assert_eq!(selection_weights, vec![vec![0]]);
    assert_eq!(request_order_weight, vec![0]);
    assert_eq!(limit, 1);
}

#[test]
fn search_starts_from_weights_of_one_under_ceilings_of_two() {
    let requests = vec![
        request(&[("A", "B", 1, 2), ("B", "C", 3, 4)]),
        request(&[]),
        request(&[("C", "D", 5, 6)]),
    ];
    let (selection_weights, weight_upper_bound, request_order_weight, limit) =
        initial_state(&requests);
    assert_eq!(selection_weights, vec![vec![1, 1], vec![], vec![1]]);
    assert_eq!(weight_upper_bound, 2);
    assert_eq!(request_order_weight, vec![1, 1, 1]);
    assert_eq!(limit, 2);
    let (selection_weights, weight_upper_bound, request_order_weight, limit) = initial_state(&[]);
    assert_eq!(selection_weights, Vec::<Vec<usize>>::new());
    assert_eq!(weight_upper_bound, 2);
    assert_eq!(request_order_weight, Vec::<usize>::new());
    assert_eq!(limit, 2);
}

#[test]
fn placing_swaps_the_drawn_request_into_its_place() {
    let mut weights = vec![10usize, 20, 30, 40];
    let mut order = vec![0usize, 1, 2, 3];
    place(&mut weights, &mut order, 0, 2);
    assert_eq!(weights, vec![30, 20, 10, 40]);
    assert_eq!(order, vec![2, 1, 0, 3]);
    place(&mut weights, &mut order, 1, 1);
    assert_eq!(weights, vec![30, 20, 10, 40]);
    assert_eq!(order, vec![2, 1, 0, 3]);
    place(&mut weights, &mut order, 3, 1);
    assert_eq!(weights, vec![30, 40, 10, 20]);
    assert_eq!(order, vec![2, 3, 0, 1]);
}

#[test]
fn chosen_transactions_follow_order_and_mask() {
    let requests = vec![
        request(&[("A", "B", 1, 2), ("B", "C", 3, 4)]),
        request(&[("C", "D", 5, 6)]),
        request(&[("D", "A", 7, 8), ("A", "C", 9, 10)]),
    ];
    let selected = vec![vec![true, true], vec![false], vec![false, true]];
    let txs = chosen_transactions(&requests, &selected, &[2, 1, 0]);
    assert_eq!(legs(&txs), vec![leg("A", "C", 9, 10), leg("A", "B", 1, 2), leg("B", "C", 3, 4)]);
    assert_eq!(chosen_transactions(&requests, &selected, &[]).len(), 0);
    assert_eq!(legs(&chosen_transactions(&requests, &[vec![true]], &[0])), vec![leg("A", "B", 1, 2)]);
}

#[test]
fn conclusion_of_a_feasible_incumbent_is_its_list_and_ledger() {
    let requests = vec![request(&[("A", "B", 1, 2)]), request(&[("A", "C", 3, 4)])];
    let before = ledger(&[("A", 100)]);
    let incumbent: Candidate =
        (Some(ledger(&[("Z", 1)])), 6, vec![vec![true], vec![true]], vec![1, 0]);
    let (txs, after) = conclude(&before, &requests, Some(incumbent));
    assert_eq!(legs(&txs), vec![leg("A", "C", 3, 4), leg("A", "B", 1, 2)]);
    assert_eq!(balances(&after), named(&[("Z", 1)]));
}

#[test]
fn conclusion_without_a_feasible_incumbent_changes_nothing() {
    let requests = vec![request(&[("A", "B", 1, 2)])];
    let before = ledger(&[("A", 100)]);
    let (txs, after) = conclude(&before, &requests, None);
    assert_eq!(txs.len(), 0);
    assert_eq!(balances(&after), named(&[("A", 100)]));
    let infeasible: Candidate = (None, INFEASIBLE, vec![vec![true]], vec![0]);
    let (txs, after) = conclude(&before, &requests, Some(infeasible));
    assert_eq!(txs.len(), 0);
    assert_eq!(balances(&after), named(&[("A", 100)]));
}

#[test]
fn selection_never_includes_weight_zero_and_always_the_ceiling() {
    let rng = fastrand::Rng::new();
    let weights = vec![vec![0usize, 8, 9, 0], vec![], vec![8, 0]];
    for _ in 0..200 {
        let selected = random_selection(&weights, 8, &rng);
        assert_eq!(selected, vec![vec![false, true, true, false], vec![], vec![true, false]]);
    }
    for _ in 0..200 {
        let selected = random_selection(&weights, 0, &rng);
        assert_eq!(selected, vec![vec![false, true, true, false], vec![], vec![true, false]]);
    }
}

#[test]
fn selection_includes_in_proportion_to_the_weight() {
    let rng = fastrand::Rng::new();
    let weights = vec![vec![1usize, 2, 3]];
    let mut counts = [0usize; 3];
    for _ in 0..4000 {
        let selected = random_selection(&weights, 4, &rng);
        assert_eq!(selected.len(), 1);
        assert_eq!(selected[0].len(), 3);
        for t in 0..3 {
            if selected[0][t] {
                counts[t] += 1;
            }
        }
    }
    assert!(800 < counts[0] && counts[0] < 1200);
    assert!(1800 < counts[1] && counts[1] < 2200);
    assert!(2800 < counts[2] && counts[2] < 3200);
}

#[test]
fn roulette_picks_from_the_suffix_and_no_zero_weight() {
    let rng = fastrand::Rng::new();
    let data = vec![100usize, 0, 3, 0, 1, 0];
    let mut counts = vec![0usize; data.len()];
    for _ in 0..2000 {
        let picked = roulette_wheel_selection(&data, 1, 3, &rng);
        assert!(picked == 2 || picked == 4);
        counts[picked] += 1;
    }
    assert!(counts[2] > counts[4]);
    assert!(counts[4] > 0);
    for _ in 0..200 {
        assert_eq!(roulette_wheel_selection(&data, 4, 3, &rng), 4);
        assert_eq!(roulette_wheel_selection(&data, 5, 3, &rng), 5);
    }
}

#[test]
fn roulette_is_uniform_where_no_weight_is_left() {
    let rng = fastrand::Rng::new();
    let data = vec![7usize, 0, 0, 0];
    let mut counts = vec![0usize; data.len()];
    for _ in 0..3000 {
        let picked = roulette_wheel_selection(&data, 1, 7, &rng);
        assert!(1 <= picked && picked < 4);
        counts[picked] += 1;
    }
    assert!(counts[1] > 700 && counts[2] > 700 && counts[3] > 700);
}

#[test]
fn agent_scores_what_it_drew() {
    let requests = vec![
        request(&[("A", "B", 3, 2), ("B", "C", 1, 1)]),
        request(&[("B", "A", 2, 1)]),
        request(&[("C", "A", 1, 5)]),
    ];
    let weights = vec![vec![1usize, 1], vec![1], vec![1]];
    let order_weights = vec![1usize, 1, 1];
    let mut feasible = 0;
    let mut infeasible = 0;
    for _ in 0..300 {
        let start = ledger(&[("System", 20), ("A", 4), ("B", 1)]);
        let (after, fitness, selected, order) =
            search_agent(start.clone(), &requests, &weights, 2, &order_weights, 2);
        assert!(is_permutation(&order, 3));
        assert_eq!(selected.len(), 3);
        assert_eq!(selected[0].len(), 2);
        assert_eq!(selected[1].len(), 1);
        assert_eq!(selected[2].len(), 1);
        let again = evaluate(start, &requests, &selected, &order);
        match (after, again) {
            (Some(after), Some(again)) => {
                assert_eq!(balances(&after), balances(&again));
                assert_eq!(Some(fitness), after.get(&system_address()));
                assert!(fitness >= 20);
                assert_eq!(after.total_balance(), 25);
                feasible += 1;
            }
            (None, None) => {
                assert_eq!(fitness, INFEASIBLE);
                infeasible += 1;
            }
            _ => panic!("the agent's ledger is not what the simulator gives"),
        }
    }
    assert!(feasible > 0 && infeasible > 0);
}

#[test]
fn agent_without_a_system_account_scores_what_it_collects() {
    let requests = vec![request(&[("A", "B", 1, 0)])];
    let (after, fitness, _, _) =
        search_agent(ledger(&[("A", 4)]), &requests, &[vec![0]], 2, &vec![1], 2);
    assert_eq!(fitness, 0);
    assert_eq!(balances(&after.unwrap()), named(&[("A", 4)]));
    let (after, fitness, selected, _) =
        search_agent(ledger(&[("A", 4)]), &[request(&[("A", "B", 1, 3)])], &[vec![2]], 2, &vec![1], 2);
    assert_eq!(selected, vec![vec![true]]);
    assert_eq!(fitness, 3);
    assert_eq!(balances(&after.unwrap()), named(&[("A", 0), ("B", 1), ("System", 3)]));
}

#[test]
fn search_without_generations_or_survivors_returns_nothing() {
    let requests = vec![request(&[("A", "B", 1, 1)])];
    let before = ledger(&[("A", 10)]);
    let (txs, after) = maximize_fee(&before, &requests, 64, 8, 0);
    assert_eq!(txs.len(), 0);
    assert_eq!(balances(&after), named(&[("A", 10)]));
    let (txs, after) = maximize_fee(&before, &requests, 64, 0, 5);
    assert_eq!(txs.len(), 0);
    assert_eq!(balances(&after), named(&[("A", 10)]));
    let (txs, after) = maximize_fee(&before, &[], 64, 8, 3);
    assert_eq!(txs.len(), 0);
    assert_eq!(balances(&after), named(&[("A", 10)]));
}

#[test]
fn search_takes_the_one_transfer_that_pays() {
    let requests = vec![request(&[("A", "B", 1, 1)])];
    let before = ledger(&[("A", 10)]);
    let (txs, after) = maximize_fee(&before, &requests, 256, 8, 4);
    assert_eq!(legs(&txs), vec![leg("A", "B", 1, 1)]);
    assert_eq!(balances(&after), named(&[("A", 8), ("B", 1), ("System", 1)]));
    assert_eq!(balances(&before), named(&[("A", 10)]));
}

#[test]
fn search_with_nothing_affordable_returns_nothing_or_an_empty_choice() {
    let requests = vec![request(&[("A", "B", 10, 1)]), request(&[("B", "A", 1, 1)])];
    let before = ledger(&[("A", 10)]);
    let (txs, after) = maximize_fee(&before, &requests, 256, 8, 6);
    assert_eq!(txs.len(), 0);
    assert_eq!(after.get(&address("A")), Some(10));
    assert_eq!(after.get(&system_address()).unwrap_or(0), 0);
}

fn replay(before: &Ledger, txs: &[Transaction]) -> Ledger {
    let mut ledger = before.clone();
    for tx in txs {
        assert!(ledger.transfer(tx, &system_address()), "a listed transfer cannot be paid for");
        for i in 0..ledger.len() {
            assert!(ledger.balance_at(i) >= 0);
        }
    }
    ledger
}

#[test]
fn solve_returns_a_list_that_replays_to_its_ledger() {
    let mut fm = FeeMaximizer::init_empty();
    fm.add_balance(&[(address("A"), 12), (address("B"), 3), (address("C"), 0)]).unwrap();
    fm.add_request(&request(&[("A", "B", 5, 1), ("B", "C", 6, 2), ("C", "A", 4, 2)]));
    fm.add_request(&request(&[("A", "C", 6, 3), ("C", "B", 2, 2)]));
    fm.add_request(&request(&[("B", "A", 3, 1), ("A", "B", 9, 4)]));
    for (population, selection, generations) in [(64, 8, 1), (128, 16, 3), (256, 4, 8), (8, 7, 2)] {
        let before = fm.balance().clone();
        let fees_before = fm.get_balance(&system_address());
        let txs = fm.solve(population, selection, generations).unwrap();
        let replayed = replay(&before, &txs);
        assert_eq!(balances(&replayed), balances(fm.balance()));
        let collected: i64 = txs.iter().map(|tx| tx.fee).sum();
        assert_eq!(fm.get_balance(&system_address()), fees_before + collected);
        assert!(fm.get_balance(&system_address()) >= fees_before);
        assert_eq!(fm.balance().total_balance(), 15);
    }
}

#[test]
fn solve_without_requests_changes_nothing() {
    for (population, selection, generations) in [(100, 10, 5), (2, 1, 0), (1, 0, 3), (8192, 32, 50)] {
        let mut fm = FeeMaximizer::init_empty();
        fm.add_balance(&[(address("A"), 12), (address("System"), 3)]).unwrap();
        let txs = fm.solve(population, selection, generations).unwrap();
        assert_eq!(txs.len(), 0);
        assert_eq!(balances(fm.balance()), named(&[("A", 12), ("System", 3)]));
    }
}

#[test]
fn solve_refuses_a_selection_that_is_not_below_the_population() {
    let mut fm = FeeMaximizer::init_empty();
    fm.add_balance(&[(address("A"), 12)]).unwrap();
    fm.add_request(&request(&[("A", "B", 5, 1)]));
    for (population, selection) in [(10, 10), (10, 11), (0, 0)] {
        assert_eq!(
            fm.solve(population, selection, 5).map(|txs| txs.len()),
            Err("selection size should be smaller than population size".to_string())
        );
        assert_eq!(balances(fm.balance()), named(&[("A", 12), ("System", 0)]));
    }
    let mut empty = FeeMaximizer::init_empty();
    assert!(empty.solve(3, 3, 1).is_err());
}

#[test]
fn solve_refuses_sizes_beyond_the_weight_range() {
    let mut fm = FeeMaximizer::init_empty();
    fm.add_balance(&[(address("A"), 12)]).unwrap();
    fm.add_request(&request(&[("A", "B", 5, 1)]));
    fm.add_request(&request(&[("A", "B", 5, 1)]));
    assert_eq!(
        fm.solve(usize::MAX, usize::MAX - 1, 5).map(|txs| txs.len()),
        Err("selection size times number of requests exceeds the supported range".to_string())
    );
    assert_eq!(balances(fm.balance()), named(&[("A", 12), ("System", 0)]));
}

#[test]
fn solve_without_generations_accepts_sizes_beyond_the_weight_range() {
    let mut fm = FeeMaximizer::init_empty();
    fm.add_balance(&[(address("A"), 12)]).unwrap();
    fm.add_request(&request(&[("A", "B", 5, 1)]));
    fm.add_request(&request(&[("A", "B", 5, 1)]));
    assert_eq!(fm.solve(usize::MAX, usize::MAX - 1, 0).map(|txs| txs.len()), Ok(0));
    assert_eq!(balances(fm.balance()), named(&[("A", 12), ("System", 0)]));
    assert_eq!(
        fm.solve(usize::MAX - 1, usize::MAX, 0).map(|txs| txs.len()),
        Err("selection size should be smaller than population size".to_string())
    );
    let mut empty = FeeMaximizer::init_empty();
    assert_eq!(empty.solve(usize::MAX, usize::MAX - 1, 5).map(|txs| txs.len()), Ok(0));
    assert_eq!(empty.balance().len(), 1);
}

#[test]
fn solve_keeps_the_backlog_and_runs_it_again() {
    let mut fm = FeeMaximizer::init_empty();
    fm.add_balance(&[(address("A"), 20)]).unwrap();
    fm.add_request(&request(&[("A", "B", 5, 5)]));
    assert_eq!(legs(&fm.solve(256, 8, 4).unwrap()), vec![leg("A", "B", 5, 5)]);
    assert_eq!(balances(fm.balance()), named(&[("A", 10), ("B", 5), ("System", 5)]));
    assert_eq!(legs(&fm.solve(256, 8, 4).unwrap()), vec![leg("A", "B", 5, 5)]);
    assert_eq!(balances(fm.balance()), named(&[("A", 0), ("B", 10), ("System", 10)]));
    assert_eq!(fm.solve(256, 8, 4).unwrap().len(), 0);
    assert_eq!(balances(fm.balance()), named(&[("A", 0), ("B", 10), ("System", 10)]));
}

#[test]
fn competing_requests_leave_the_one_that_pays_more() {
    let mut fm = FeeMaximizer::init_empty();
    fm.add_balance(&[(address("A"), 10)]).unwrap();
    fm.add_request(&request(&[("A", "B", 5, 5)]));
    fm.add_request(&request(&[("A", "C", 2, 8)]));
    let txs = fm.solve(512, 16, 20).unwrap();
    assert_eq!(legs(&txs), vec![leg("A", "C", 2, 8)]);
    assert_eq!(fm.get_balance(&system_address()), 8);
    assert_eq!(fm.get_balance(&address("A")), 0);
    assert_eq!(fm.get_balance(&address("C")), 2);
    assert_eq!(fm.get_balance(&address("B")), -1);
}

#[test]
fn competing_batches_are_never_mixed_beyond_the_balance() {
    let mut fm = FeeMaximizer::init_empty();
    fm.add_balance(&[(address("System"), 20), (address("A"), 200)]).unwrap();
    fm.add_request(&request(&[("A", "B", 90, 10), ("A", "B", 80, 20)]));
    fm.add_request(&request(&[("A", "C", 60, 40), ("A", "C", 70, 30)]));
    let before = fm.balance().clone();
    let txs = fm.solve(2048, 32, 30).unwrap();
    let replayed = replay(&before, &txs);
    assert_eq!(balances(&replayed), balances(fm.balance()));
    assert_eq!(legs(&txs).iter().map(|l| l.3).sum::<i64>(), 70);
    assert_eq!(fm.get_balance(&system_address()), 90);
    assert_eq!(fm.get_balance(&address("A")), 0);
}

#[test]
fn unknown_address_has_the_balance_minus_one() {
    let fm = FeeMaximizer::init_empty();
    assert_eq!(fm.get_balance(&address("A")), -1);
    assert_eq!(fm.get_balance(&system_address()), 0);
    assert_eq!(fm.balance().len(), 1);
}

#[test]
fn balances_are_merged_into_the_optimizer() {
    let mut fm = FeeMaximizer::init_empty();
    fm.add_balance(&[(address("A"), 5), (address("System"), 20), (address("A"), 6)]).unwrap();
    assert_eq!(fm.get_balance(&address("A")), 11);
    assert_eq!(fm.get_balance(&system_address()), 20);
    assert_eq!(
        fm.add_balance(&[(address("B"), 5), (address("A"), -6)]),
        Err("balance must be non-negative".to_string())
    );
    assert_eq!(fm.get_balance(&address("B")), -1);
    assert_eq!(fm.get_balance(&address("A")), 11);
}
