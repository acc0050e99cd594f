use pegrex::table::same_label;
use pegrex::partial_nfa::{
    add_table, create_shifted_table, redirect_exit_targets, PNFATarget, PNFATargetSet,
    TransitionTable, PNFA,
};

fn singleton(t: PNFATarget) -> PNFATargetSet {
    let mut set = PNFATargetSet::new();
    set.insert(t);
    set
}

#[test]
fn test_create_shifted_table() {
    let mut tt: TransitionTable = TransitionTable::new();
    tt.insert((0, Some('a')), singleton(PNFATarget::State(1)));
    tt.insert((0, None), singleton(PNFATarget::State(3)));
    tt.insert((1, Some('b')), singleton(PNFATarget::State(2)));
    tt.insert((1, Some('c')), singleton(PNFATarget::State(3)));
    tt.insert((2, None), singleton(PNFATarget::Exit));
    tt.insert((3, None), singleton(PNFATarget::Exit));

    let shifted = create_shifted_table(&tt, 5);

    assert!(*(shifted.find(&(5, Some('a'))).unwrap()) == singleton(PNFATarget::State(6)));
    assert!(*(shifted.find(&(5, None)).unwrap()) == singleton(PNFATarget::State(8)));
    assert!(*(shifted.find(&(6, Some('b'))).unwrap()) == singleton(PNFATarget::State(7)));
    assert!(*(shifted.find(&(6, Some('c'))).unwrap()) == singleton(PNFATarget::State(8)));
    assert!(*(shifted.find(&(7, None)).unwrap()) == singleton(PNFATarget::Exit));
    assert!(*(shifted.find(&(8, None)).unwrap()) == singleton(PNFATarget::Exit));
}

fn pair(a: PNFATarget, b: PNFATarget) -> PNFATargetSet {
    let mut set = singleton(a);
    set.insert(b);
    set
}

fn targets(table: &TransitionTable, state: usize, label: Option<char>) -> PNFATargetSet {
    match table.find(&(state, label)) {
        Some(set) => set.clone(),
        None => panic!("no transition from state {} under {:?}", state, label),
    }
}

#[test]
fn target_sets_compare_by_their_members() {
    let ab = pair(PNFATarget::State(1), PNFATarget::Exit);
    let ba = pair(PNFATarget::Exit, PNFATarget::State(1));
    assert!(ab == ba);
    assert!(ab != singleton(PNFATarget::Exit));
    assert!(ab != pair(PNFATarget::State(2), PNFATarget::Exit));
    assert!(PNFATargetSet::new() == PNFATargetSet::new());
}

#[test]
fn target_set_insert_and_remove() {
    let mut set = PNFATargetSet::new();
    assert!(!set.contains(PNFATarget::Exit));
    assert!(set.insert(PNFATarget::Exit));
    assert!(!set.insert(PNFATarget::Exit));
    assert!(set.insert(PNFATarget::State(4)));
    assert!(set.contains(PNFATarget::State(4)));
    assert!(!set.contains(PNFATarget::State(5)));
    assert!(set.remove(PNFATarget::Exit));
    assert!(!set.remove(PNFATarget::Exit));
    assert!(set == singleton(PNFATarget::State(4)));
    assert!(set.remove(PNFATarget::State(4)));
    assert!(set == PNFATargetSet::new());
}

#[test]
fn table_insert_replaces_the_value_of_a_key() {
    let mut tt: TransitionTable = TransitionTable::new();
    assert_eq!(tt.len(), 0);
    tt.insert((0, None), singleton(PNFATarget::Exit));
    tt.insert((1, None), singleton(PNFATarget::Exit));
    tt.insert((0, None), singleton(PNFATarget::State(1)));
    assert_eq!(tt.len(), 2);
    assert_eq!(tt.key_at(0), (0, None));
    assert_eq!(tt.key_at(1), (1, None));
    assert!(targets(&tt, 0, None) == singleton(PNFATarget::State(1)));
    assert!(tt.find(&(0, Some('a'))).is_none());
    assert!(tt.find(&(2, None)).is_none());
}

#[test]
fn table_pop_takes_the_last_key() {
    let mut tt: TransitionTable = TransitionTable::new();
    assert!(tt.pop().is_none());
    tt.insert((0, Some('a')), singleton(PNFATarget::State(1)));
    tt.insert((1, None), singleton(PNFATarget::Exit));
    let (key, value) = tt.pop().unwrap();
    assert_eq!(key, (1, None));
    assert!(value == singleton(PNFATarget::Exit));
    assert_eq!(tt.len(), 1);
    assert!(tt.find(&(1, None)).is_none());
    assert!(targets(&tt, 0, Some('a')) == singleton(PNFATarget::State(1)));
}

#[test]
fn shifting_by_zero_changes_nothing() {
    let mut tt: TransitionTable = TransitionTable::new();
    tt.insert((0, Some('a')), pair(PNFATarget::State(1), PNFATarget::Exit));
    let shifted = create_shifted_table(&tt, 0);
    assert_eq!(shifted.len(), 1);
    assert!(targets(&shifted, 0, Some('a')) == pair(PNFATarget::State(1), PNFATarget::Exit));
}

#[test]
fn shifting_moves_keys_and_states_but_not_exit() {
    let mut tt: TransitionTable = TransitionTable::new();
    tt.insert((0, Some('a')), pair(PNFATarget::State(1), PNFATarget::Exit));
    tt.insert((1, None), singleton(PNFATarget::State(0)));
    let shifted = create_shifted_table(&tt, 3);
    assert_eq!(shifted.len(), 2);
    assert!(shifted.find(&(0, Some('a'))).is_none());
    assert!(shifted.find(&(1, None)).is_none());
    assert!(targets(&shifted, 3, Some('a')) == pair(PNFATarget::State(4), PNFATarget::Exit));
    assert!(targets(&shifted, 4, None) == singleton(PNFATarget::State(3)));
}

#[test]
fn redirecting_replaces_exit_only() {
    let mut tt: TransitionTable = TransitionTable::new();
    tt.insert((0, Some('a')), pair(PNFATarget::State(1), PNFATarget::Exit));
    tt.insert((1, None), singleton(PNFATarget::State(0)));
    tt.insert((1, Some('b')), singleton(PNFATarget::Exit));
    redirect_exit_targets(&mut tt, 7);
    assert_eq!(tt.len(), 3);
    assert!(targets(&tt, 0, Some('a')) == pair(PNFATarget::State(1), PNFATarget::State(7)));
    assert!(targets(&tt, 1, None) == singleton(PNFATarget::State(0)));
    assert!(targets(&tt, 1, Some('b')) == singleton(PNFATarget::State(7)));
}

#[test]
fn adding_a_table_prefers_the_added_values() {
    let mut first: TransitionTable = TransitionTable::new();
    first.insert((0, None), singleton(PNFATarget::State(1)));
    first.insert((1, None), singleton(PNFATarget::Exit));
    let mut second: TransitionTable = TransitionTable::new();
    second.insert((1, None), singleton(PNFATarget::State(2)));
    second.insert((2, Some('x')), singleton(PNFATarget::Exit));
    add_table(&mut first, second);
    assert_eq!(first.len(), 3);
    assert!(targets(&first, 0, None) == singleton(PNFATarget::State(1)));
    assert!(targets(&first, 1, None) == singleton(PNFATarget::State(2)));
    assert!(targets(&first, 2, Some('x')) == singleton(PNFATarget::Exit));
}

#[test]
fn new_counts_the_states_from_the_keys() {
    let empty: TransitionTable = TransitionTable::new();
    let pnfa = PNFA::new(empty, 0);
    assert_eq!(pnfa.num_states, 1);
    assert_eq!(pnfa.entry, 0);

    let mut tt: TransitionTable = TransitionTable::new();
    tt.insert((4, None), singleton(PNFATarget::Exit));
    tt.insert((2, Some('a')), singleton(PNFATarget::State(9)));
    let pnfa = PNFA::new(tt, 2);
    assert_eq!(pnfa.num_states, 5);
    assert_eq!(pnfa.entry, 2);
    assert_eq!(pnfa.table.len(), 2);
}

#[test]
fn single_symbol_has_one_state_and_one_exit() {
    let pnfa = PNFA::single_symbol('a');
    assert_eq!(pnfa.entry, 0);
    assert_eq!(pnfa.num_states, 1);
    assert_eq!(pnfa.table.len(), 1);
    assert!(targets(&pnfa.table, 0, Some('a')) == singleton(PNFATarget::Exit));
}

#[test]
fn concatenate_leads_the_exits_of_the_first_to_the_second() {
    let pnfa = PNFA::concatenate(PNFA::single_symbol('a'), PNFA::single_symbol('b'));
    assert_eq!(pnfa.entry, 0);
    assert_eq!(pnfa.num_states, 2);
    assert_eq!(pnfa.table.len(), 2);
    assert!(targets(&pnfa.table, 0, Some('a')) == singleton(PNFATarget::State(1)));
    assert!(targets(&pnfa.table, 1, Some('b')) == singleton(PNFATarget::Exit));
}

#[test]
fn alternate_puts_a_new_state_before_both() {
    let pnfa = PNFA::alternate(PNFA::single_symbol('a'), PNFA::single_symbol('b'));
    assert_eq!(pnfa.entry, 0);
    assert_eq!(pnfa.num_states, 3);
    assert_eq!(pnfa.table.len(), 3);
    assert!(targets(&pnfa.table, 0, None) == pair(PNFATarget::State(1), PNFATarget::State(2)));
    assert!(targets(&pnfa.table, 1, Some('a')) == singleton(PNFATarget::Exit));
    assert!(targets(&pnfa.table, 2, Some('b')) == singleton(PNFATarget::Exit));
}

#[test]
fn optional_adds_a_way_past() {
    let pnfa = PNFA::optional(PNFA::single_symbol('a'));
    assert_eq!(pnfa.entry, 0);
    assert_eq!(pnfa.num_states, 2);
    assert_eq!(pnfa.table.len(), 2);
    assert!(targets(&pnfa.table, 0, None) == pair(PNFATarget::State(1), PNFATarget::Exit));
    assert!(targets(&pnfa.table, 1, Some('a')) == singleton(PNFATarget::Exit));
}

#[test]
fn star_leads_the_exits_back_to_the_new_state() {
    let pnfa = PNFA::star(PNFA::single_symbol('a'));
    assert_eq!(pnfa.entry, 0);
    assert_eq!(pnfa.num_states, 2);
    assert_eq!(pnfa.table.len(), 2);
    assert!(targets(&pnfa.table, 0, None) == pair(PNFATarget::State(1), PNFATarget::Exit));
    assert!(targets(&pnfa.table, 1, Some('a')) == singleton(PNFATarget::State(0)));
}

#[test]
fn plus_adds_a_last_state_and_keeps_the_entry() {
    let pnfa = PNFA::plus(PNFA::single_symbol('a'));
    assert_eq!(pnfa.entry, 0);
    assert_eq!(pnfa.num_states, 2);
    assert_eq!(pnfa.table.len(), 2);
    assert!(targets(&pnfa.table, 0, Some('a')) == singleton(PNFATarget::State(1)));
    assert!(targets(&pnfa.table, 1, None) == pair(PNFATarget::State(0), PNFATarget::Exit));
}

#[test]
fn plus_counts_its_new_state() {
    // (a+)b: the state that `+` adds must not be taken again for `b`.
    let pnfa = PNFA::concatenate(PNFA::plus(PNFA::single_symbol('a')), PNFA::single_symbol('b'));
    assert_eq!(pnfa.num_states, 3);
    assert_eq!(pnfa.table.len(), 3);
    assert!(targets(&pnfa.table, 0, Some('a')) == singleton(PNFATarget::State(1)));
    assert!(targets(&pnfa.table, 1, None) == pair(PNFATarget::State(0), PNFATarget::State(2)));
    assert!(targets(&pnfa.table, 2, Some('b')) == singleton(PNFATarget::Exit));
}

#[test]
fn nested_operations_number_the_states_in_turn() {
    // (a|b)* : 0 -> {1, Exit}; 1 -> {2, 3}; 2 -a-> 0; 3 -b-> 0
    let inner = PNFA::alternate(PNFA::single_symbol('a'), PNFA::single_symbol('b'));
    let pnfa = PNFA::star(inner);
    assert_eq!(pnfa.num_states, 4);
    assert_eq!(pnfa.table.len(), 4);
    assert!(targets(&pnfa.table, 0, None) == pair(PNFATarget::State(1), PNFATarget::Exit));
    assert!(targets(&pnfa.table, 1, None) == pair(PNFATarget::State(2), PNFATarget::State(3)));
    assert!(targets(&pnfa.table, 2, Some('a')) == singleton(PNFATarget::State(0)));
    assert!(targets(&pnfa.table, 3, Some('b')) == singleton(PNFATarget::State(0)));
}

#[test]
fn fragments_compare_by_their_transitions() {
    let ab = PNFA::concatenate(PNFA::single_symbol('a'), PNFA::single_symbol('b'));
    let again = PNFA::concatenate(PNFA::single_symbol('a'), PNFA::single_symbol('b'));
    let ba = PNFA::concatenate(PNFA::single_symbol('b'), PNFA::single_symbol('a'));
    assert!(ab == again);
    assert!(ab != ba);
    assert!(ab != PNFA::single_symbol('a'));
    assert!(PNFA::optional(PNFA::single_symbol('a')) != PNFA::star(PNFA::single_symbol('a')));

    let mut by_hand: TransitionTable = TransitionTable::new();
    by_hand.insert((1, Some('b')), singleton(PNFATarget::Exit));
    by_hand.insert((0, Some('a')), singleton(PNFATarget::State(1)));
    let mut expected = PNFA::new(by_hand, 0);
    assert!(ab == expected);
    expected.num_states = 3;
    assert!(ab != expected);
}

#[test]
fn a_clone_is_equal_and_apart() {
    let a = PNFA::star(PNFA::single_symbol('a'));
    let copy = a.clone();
    assert!(a == copy);
    let longer = PNFA::concatenate(copy, PNFA::single_symbol('b'));
    assert!(a != longer);
    assert_eq!(a.num_states, 2);
    assert_eq!(longer.num_states, 3);
}

#[test]
fn the_states_of_a_target_set() {
    let mut set = pair(PNFATarget::State(3), PNFATarget::Exit);
    set.insert(PNFATarget::State(5));
    let states = set.states();
    assert_eq!(states.len(), 2);
    assert!(states.contains(3));
    assert!(states.contains(5));
    assert!(!states.contains(0));
    assert_eq!(PNFATargetSet::new().states().len(), 0);
}

#[test]
fn table_values_by_position() {
    let mut tt: TransitionTable = TransitionTable::new();
    tt.insert((2, Some('x')), singleton(PNFATarget::Exit));
    tt.insert((0, None), singleton(PNFATarget::State(2)));
    assert_eq!(tt.key_at(0), (2, Some('x')));
    assert!(*tt.value_at(0) == singleton(PNFATarget::Exit));
    assert_eq!(tt.key_at(1), (0, None));
    assert!(*tt.value_at(1) == singleton(PNFATarget::State(2)));
    let copy = tt.clone();
    assert_eq!(copy.len(), 2);
    assert_eq!(copy.key_at(1), (0, None));
    assert!(*copy.value_at(0) == singleton(PNFATarget::Exit));
}

#[test]
fn labels_compare() {
    assert!(same_label(None, None));
    assert!(same_label(Some('a'), Some('a')));
    assert!(!same_label(Some('a'), Some('b')));
    assert!(!same_label(Some('a'), None));
    assert!(!same_label(None, Some('a')));
}
