use lcrq::flag_and_u63::FlagAndU63;
use lcrq::flag_and_u63::FLAG_VALUE;
use lcrq::flag_and_u63::VALUE_MAX;
use lcrq::node::Node;
use lcrq::node::NODE_VALUE_EMPTY;

#[test]
fn test_node_value() {
    assert_eq!(Node::new(0, 1, true).value(), 1);
    assert_eq!(Node::new(5, 9, true).value(), 9);
    assert_eq!(Node::new(8, 2, true).value(), 2);
    assert_eq!(Node::new(0, 1, false).value(), 1);
    assert_eq!(Node::new(5, 9, false).value(), 9);
    assert_eq!(Node::new(8, 2, false).value(), 2);
}

#[test]
fn test_node_index() {
    assert_eq!(Node::new(0, 1, true).index(), 0);
    assert_eq!(Node::new(5, 9, true).index(), 5);
    assert_eq!(Node::new(8, 2, true).index(), 8);
    assert_eq!(Node::new(0, 1, false).index(), 0);
    assert_eq!(Node::new(5, 9, false).index(), 5);
    assert_eq!(Node::new(8, 2, false).index(), 8);
}

#[test]
fn test_node_safe() {
    let node = Node::new(0, 0, true);
    assert!(node.is_safe());

    let node = Node::new(0, 0, false);
    assert!(!node.is_safe());

    let mut node = Node::new(1, 2, true);
    assert!(node.is_safe());
    assert_eq!(node.index(), 1);
    assert_eq!(node.value(), 2);

    node.set_unsafe();
    assert!(!node.is_safe());
    assert_eq!(node.index(), 1);
    assert_eq!(node.value(), 2);

    node.set_safe();
    assert!(node.is_safe());
    assert_eq!(node.index(), 1);
    assert_eq!(node.value(), 2);
}

#[test]
fn node_safe_and_index_reads_both() {
    assert_eq!(Node::new(12, 3, true).safe_and_index(), (true, 12));
    assert_eq!(Node::new(12, 3, false).safe_and_index(), (false, 12));
}

#[test]
fn node_index_above_63_bits_reads_as_safe() {
    let node = Node::new(FLAG_VALUE + 6, 1, false);
    assert!(node.is_safe());
    assert_eq!(node.index(), 6);
}

#[test]
fn node_words_round_trip() {
    let node = Node::new(9, 77, true);
    let words = node.to_words();
    assert_eq!(words, [FLAG_VALUE + 9, 77]);
    let back = Node::from_words(&words);
    assert_eq!(back.index(), 9);
    assert_eq!(back.value(), 77);
    assert!(back.is_safe());
}

#[test]
fn node_compare_and_swap_needs_the_whole_cell_to_match() {
    let mut cell = Node::new(4, NODE_VALUE_EMPTY, true);
    let filled = Node::new(4, 100, true);
    assert!(!cell.compare_and_swap(&Node::new(4, NODE_VALUE_EMPTY, false), &filled));
    assert_eq!(cell.value(), NODE_VALUE_EMPTY);
    assert!(!cell.compare_and_swap(&Node::new(8, NODE_VALUE_EMPTY, true), &filled));
    assert_eq!(cell.value(), NODE_VALUE_EMPTY);
    assert!(cell.compare_and_swap(&Node::new(4, NODE_VALUE_EMPTY, true), &filled));
    assert_eq!(cell.value(), 100);
    assert_eq!(cell.index(), 4);
    assert!(cell.is_safe());
}

#[test]
fn flag_and_u63_packs_flag_in_bit_63() {
    let open = FlagAndU63::new(false, 17);
    assert_eq!(open.combined(), 17);
    assert!(!open.is_flag_set());
    assert_eq!(open.value(), 17);
    assert_eq!(open.flag_and_value(), (false, 17));

    let closed = FlagAndU63::new(true, 17);
    assert_eq!(closed.combined(), 0x8000000000000011u64);
    assert!(closed.is_flag_set());
    assert_eq!(closed.value(), 17);
    assert_eq!(closed.flag_and_value(), (true, 17));
    assert_eq!(*closed.ref_combined(), 0x8000000000000011u64);
}

#[test]
fn flag_and_u63_value_above_63_bits_raises_the_flag() {
    let packed = FlagAndU63::new(false, FLAG_VALUE + 3);
    assert!(packed.is_flag_set());
    assert_eq!(packed.value(), 3);
    let largest = FlagAndU63::new(false, VALUE_MAX);
    assert!(!largest.is_flag_set());
    assert_eq!(largest.value(), VALUE_MAX);
}

#[test]
fn flag_and_u63_set_and_unset_keep_the_value() {
    let mut packed = FlagAndU63::from_repr(41);
    packed.set_flag();
    assert_eq!(packed.combined(), FLAG_VALUE + 41);
    packed.set_flag();
    assert_eq!(packed.combined(), FLAG_VALUE + 41);
    packed.unset_flag();
    assert_eq!(packed.combined(), 41);
    packed.unset_flag();
    assert_eq!(packed.combined(), 41);
}
