use minigames::slots::MAX_BET_CENTS;
use minigames::slots::MIN_BET_CENTS;
use minigames::slots::NUMBER_OF_WHEELS;
use minigames::slots::VISIBLE_SPOTS;
use minigames::slots::check_winnings;
use minigames::slots::get_slot_machine_spin;
use minigames::slots::place_bet;
use minigames::slots::settle_winnings;
use minigames::slots::symbol_value;
use minigames::slots::total_bet;
use minigames::slots::valid_bet;
use minigames::slots::valid_deposit;
use minigames::slots::valid_line_count;

fn payout_table() -> Vec<(char, u32)> {
    vec![('A', 5), ('B', 4), ('C', 3), ('D', 2)]
}

#[test]
fn deposit_must_be_positive() {
    assert!(!valid_deposit(0));
    assert!(valid_deposit(1));
}

#[test]
fn line_count_bounds() {
    assert!(!valid_line_count(0));
    assert!(valid_line_count(1));
    assert!(valid_line_count(5));
    assert!(!valid_line_count(6));
    assert!(!valid_line_count(-2));
}

#[test]
fn bet_bounds() {
    assert!(!valid_bet(MIN_BET_CENTS - 1));
    assert!(valid_bet(MIN_BET_CENTS));
    assert!(valid_bet(MAX_BET_CENTS));
    assert!(!valid_bet(MAX_BET_CENTS + 1));
}

#[test]
fn spin_cost_is_bet_times_lines() {
    assert_eq!(total_bet(100, 3), 300);
    assert_eq!(total_bet(5000, 5), 25000);
}

#[test]
fn placing_a_bet_needs_funds() {
    assert_eq!(place_bet(1000, 300), Some(700));
    assert_eq!(place_bet(300, 300), Some(0));
    assert_eq!(place_bet(299, 300), None);
}

#[test]
fn winnings_return_to_the_account() {
    assert_eq!(settle_winnings(1000, 500), Some(1500));
    assert_eq!(settle_winnings(u64::MAX, 1), None);
}

#[test]
fn symbol_lookup_finds_first_entry() {
    let values = payout_table();
    assert_eq!(symbol_value(&values, 'A'), Some(5));
    assert_eq!(symbol_value(&values, 'D'), Some(2));
    assert_eq!(symbol_value(&values, 'Z'), None);
}

#[test]
fn one_matching_line_pays_its_value() {
    // Three wheels, two visible rows; the first row matches on 'A'.
    let columns = vec![vec!['A', 'B'], vec!['A', 'C'], vec!['A', 'B']];
    let (winnings, lines) = check_winnings(&columns, 2, 100, &payout_table());
    assert_eq!(winnings, 500);
    assert_eq!(lines, vec![1]);
}

#[test]
fn several_matching_lines_add_up() {
    let columns = vec![vec!['D', 'B', 'C'], vec!['D', 'B', 'A'], vec!['D', 'B', 'C']];
    let (winnings, lines) = check_winnings(&columns, 3, 50, &payout_table());
    // Line 1 pays 2 * 50, line 2 pays 4 * 50, line 3 does not match.
    assert_eq!(winnings, 300);
    assert_eq!(lines, vec![1, 2]);
}

#[test]
fn no_matching_line_pays_nothing() {
    let columns = vec![vec!['A', 'B'], vec!['B', 'C'], vec!['A', 'B']];
    let (winnings, lines) = check_winnings(&columns, 2, 100, &payout_table());
    assert_eq!(winnings, 0);
    assert!(lines.is_empty());
}

#[test]
fn spin_has_the_machine_shape() {
    let symbols = vec![('A', 5u32), ('B', 10), ('C', 15), ('D', 20)];
    let columns = get_slot_machine_spin(VISIBLE_SPOTS, NUMBER_OF_WHEELS, &symbols);
    assert_eq!(columns.len(), NUMBER_OF_WHEELS);
    for column in &columns {
        assert_eq!(column.len(), VISIBLE_SPOTS);
        for cell in column {
            assert!(['A', 'B', 'C', 'D'].contains(cell));
        }
        // Drawing is without replacement: 'A' has only 5 copies in the pool.
        let a_count = column.iter().filter(|&&c| c == 'A').count();
        assert!(a_count <= 5);
    }
}
