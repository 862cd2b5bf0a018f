use aurora_layout::counter_style::CounterStyle;
use aurora_layout::counters::{
    build_counter_state, render_counter, resolve_counter, resolve_counters, CounterNode,
    CounterPair, CounterScope, CounterState, ElementCounters, NodeCounters,
};

fn pair(name: &str, value: i32) -> CounterPair {
    CounterPair { name: name.to_string(), value, is_reversed: false }
}

fn element(id: usize, reset: Vec<CounterPair>, increment: Vec<CounterPair>, children: Vec<CounterNode>) -> CounterNode {
    CounterNode {
        id,
        counters: NodeCounters::Element(ElementCounters {
            display_none: false,
            is_list_item: false,
            counter_reset: reset,
            counter_increment: increment,
        }),
        children,
    }
}

fn list_item(id: usize, children: Vec<CounterNode>) -> CounterNode {
    CounterNode {
        id,
        counters: NodeCounters::Element(ElementCounters {
            display_none: false,
            is_list_item: true,
            counter_reset: vec![],
            counter_increment: vec![],
        }),
        children,
    }
}

fn decimal() -> CounterStyle {
    CounterStyle::Name("decimal".to_string())
}

#[test]
fn scope_get_and_get_all() {
    let mut scope = CounterScope::empty();
    let a = "a".to_string();
    assert_eq!(scope.get(&a), 0);
    assert!(scope.get_all(&a).is_empty());
    scope.apply_reset(&vec![pair("a", 1), pair("b", 5), pair("a", 7)]);
    assert_eq!(scope.get(&a), 7);
    assert_eq!(scope.get_all(&a), vec![1, 7]);
    assert_eq!(scope.get(&"b".to_string()), 5);
    assert_eq!(scope.entries().len(), 3);
}

#[test]
fn increments_hit_the_innermost_counter() {
    let mut scope = CounterScope::empty();
    scope.apply_reset(&vec![pair("a", 1), pair("a", 10)]);
    scope.apply_increment(&vec![pair("a", 2), pair("c", 4)]);
    assert_eq!(scope.get_all(&"a".to_string()), vec![1, 12]);
    // A missing counter is created at the increment.
    assert_eq!(scope.get(&"c".to_string()), 4);
}

#[test]
fn increments_saturate() {
    let mut scope = CounterScope::empty();
    scope.apply_reset(&vec![pair("a", i32::MAX - 1), pair("b", i32::MIN + 1)]);
    scope.apply_increment(&vec![pair("a", 5), pair("b", -5)]);
    assert_eq!(scope.get(&"a".to_string()), i32::MAX);
    assert_eq!(scope.get(&"b".to_string()), i32::MIN);
}

#[test]
fn new_state_has_list_item_at_zero() {
    let state = CounterState::new();
    assert!(state.snapshots().is_empty());
    assert_eq!(state.counter_value(1, &"list-item".to_string()), 0);
    assert!(state.counter_all_values(1, &"list-item".to_string()).is_empty());
}

#[test]
fn walk_snapshots_each_styled_element() {
    let tree = element(
        1,
        vec![pair("chapter", 0)],
        vec![],
        vec![
            element(2, vec![], vec![pair("chapter", 1)], vec![]),
            CounterNode { id: 3, counters: NodeCounters::NotElement, children: vec![] },
            CounterNode { id: 4, counters: NodeCounters::Unstyled, children: vec![] },
            element(5, vec![], vec![pair("chapter", 2)], vec![element(6, vec![], vec![], vec![])]),
        ],
    );
    let mut state = CounterState::new();
    build_counter_state(&tree, &mut state);
    let chapter = "chapter".to_string();
    assert_eq!(state.counter_value(1, &chapter), 0);
    assert_eq!(state.counter_value(2, &chapter), 1);
    assert_eq!(state.counter_value(3, &chapter), 0);
    assert_eq!(state.counter_value(4, &chapter), 0);
    // Each child continues from the counters its preceding sibling left.
    assert_eq!(state.counter_value(5, &chapter), 3);
    assert_eq!(state.counter_value(6, &chapter), 3);
    assert!(!state.snapshots().contains_key(&3));
    assert!(!state.snapshots().contains_key(&4));
    assert_eq!(state.snapshots().len(), 4);
}

#[test]
fn list_items_step_the_list_item_counter() {
    let tree = element(1, vec![], vec![], vec![list_item(2, vec![list_item(3, vec![])]), list_item(4, vec![])]);
    let mut state = CounterState::new();
    build_counter_state(&tree, &mut state);
    let li = "list-item".to_string();
    assert_eq!(state.counter_value(1, &li), 0);
    assert_eq!(state.counter_value(2, &li), 1);
    assert_eq!(state.counter_value(3, &li), 2);
    // Document order: the nested item's step carries on to the next item.
    assert_eq!(state.counter_value(4, &li), 3);
}

#[test]
fn ordered_list_numbers_its_items() {
    let tree = element(1, vec![pair("list-item", 0)], vec![], vec![list_item(2, vec![]), list_item(3, vec![]), list_item(4, vec![])]);
    let mut state = CounterState::new();
    build_counter_state(&tree, &mut state);
    let li = "list-item".to_string();
    assert_eq!(state.counter_value(2, &li), 1);
    assert_eq!(state.counter_value(3, &li), 2);
    assert_eq!(state.counter_value(4, &li), 3);
}

#[test]
fn nested_list_has_its_own_numbering() {
    let inner = element(5, vec![pair("list-item", 0)], vec![], vec![list_item(6, vec![]), list_item(7, vec![])]);
    let tree = element(
        1,
        vec![pair("list-item", 0)],
        vec![],
        vec![list_item(2, vec![]), list_item(3, vec![inner]), list_item(4, vec![])],
    );
    let mut state = CounterState::new();
    build_counter_state(&tree, &mut state);
    let li = "list-item".to_string();
    assert_eq!(state.counter_value(2, &li), 1);
    assert_eq!(state.counter_value(3, &li), 2);
    assert_eq!(state.counter_value(6, &li), 1);
    assert_eq!(state.counter_value(7, &li), 2);
    assert_eq!(state.counter_all_values(7, &li), vec![0, 2, 2]);
    // The inner list's counter ends with it; the outer numbering continues.
    assert_eq!(state.counter_value(4, &li), 3);
    assert_eq!(state.counter_all_values(4, &li), vec![0, 3]);
}

#[test]
fn reversed_list_item_counts_down() {
    let reversed = CounterPair { name: "list-item".to_string(), value: 3, is_reversed: true };
    let tree = element(1, vec![reversed], vec![], vec![list_item(2, vec![])]);
    let mut state = CounterState::new();
    build_counter_state(&tree, &mut state);
    assert_eq!(state.counter_value(2, &"list-item".to_string()), 2);
}

#[test]
fn explicit_list_item_increment_replaces_the_step() {
    let mut li = list_item(2, vec![]);
    if let NodeCounters::Element(st) = &mut li.counters {
        st.counter_increment = vec![pair("list-item", 5)];
    }
    let tree = element(1, vec![], vec![], vec![li]);
    let mut state = CounterState::new();
    build_counter_state(&tree, &mut state);
    assert_eq!(state.counter_value(2, &"list-item".to_string()), 5);
}

#[test]
fn display_none_takes_no_part() {
    let hidden = CounterNode {
        id: 2,
        counters: NodeCounters::Element(ElementCounters {
            display_none: true,
            is_list_item: true,
            counter_reset: vec![pair("x", 9)],
            counter_increment: vec![pair("x", 1)],
        }),
        children: vec![element(3, vec![], vec![], vec![])],
    };
    let after = element(4, vec![], vec![], vec![]);
    let tree = element(1, vec![pair("x", 4)], vec![], vec![hidden, after]);
    let mut state = CounterState::new();
    build_counter_state(&tree, &mut state);
    // The hidden element's reset still applies; its increment and the
    // list-item step do not, and its children are not walked.
    assert_eq!(state.counter_value(2, &"x".to_string()), 9);
    assert_eq!(state.counter_all_values(2, &"x".to_string()), vec![4, 9]);
    assert_eq!(state.counter_value(2, &"list-item".to_string()), 0);
    assert!(!state.snapshots().contains_key(&3));
    // The following sibling continues with the counter the reset created.
    assert_eq!(state.counter_all_values(4, &"x".to_string()), vec![4, 9]);
}

#[test]
fn a_second_walk_continues_the_first() {
    let tree = element(1, vec![pair("x", 4)], vec![pair("list-item", 1)], vec![]);
    let mut state = CounterState::new();
    build_counter_state(&tree, &mut state);
    assert_eq!(state.counter_value(1, &"list-item".to_string()), 1);
    build_counter_state(&tree, &mut state);
    // The counters the first root created stay in force after it.
    assert_eq!(state.counter_value(1, &"list-item".to_string()), 2);
    assert_eq!(state.counter_all_values(1, &"x".to_string()), vec![4, 4]);
}

#[test]
fn resolving_counter_and_counters() {
    let tree = element(
        1,
        vec![pair("item", 0)],
        vec![pair("item", 2)],
        vec![element(2, vec![pair("item", 0)], vec![pair("item", 3)], vec![])],
    );
    let mut state = CounterState::new();
    build_counter_state(&tree, &mut state);
    let item = "item".to_string();
    assert_eq!(resolve_counter(&state, 2, &item, &decimal()), "3");
    assert_eq!(resolve_counters(&state, 2, &item, ".", &decimal()), "2.3");
    assert_eq!(resolve_counters(&state, 1, &item, ".", &decimal()), "2");
    let roman = CounterStyle::Name("upper-roman".to_string());
    assert_eq!(resolve_counters(&state, 2, &item, " - ", &roman), "II - III");
    // No such counter, or no snapshot: the style's text for 0.
    assert_eq!(resolve_counters(&state, 2, &"none".to_string(), ".", &decimal()), "0");
    assert_eq!(resolve_counter(&state, 99, &item, &decimal()), "0");
    assert_eq!(render_counter(12, &roman), "XII");
}

#[test]
fn a_walk_leaves_other_snapshots_alone() {
    let first = element(1, vec![pair("x", 4)], vec![], vec![element(2, vec![], vec![pair("x", 1)], vec![])]);
    let second = element(10, vec![pair("x", 0)], vec![], vec![element(11, vec![], vec![], vec![])]);
    let mut state = CounterState::new();
    build_counter_state(&first, &mut state);
    build_counter_state(&second, &mut state);
    let x = "x".to_string();
    assert_eq!(state.counter_all_values(2, &x), vec![5]);
    assert_eq!(state.counter_all_values(1, &x), vec![4]);
    assert_eq!(state.counter_all_values(11, &x), vec![5, 0]);
}
