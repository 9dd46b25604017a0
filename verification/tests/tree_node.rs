use arithmetic_decoder::TreeNode;

#[test]
fn a_branch_is_prepared_as_half_its_index() {
    assert_eq!(TreeNode::prepare_branch(2), 1);
    assert_eq!(TreeNode::prepare_branch(4), 2);
    assert_eq!(TreeNode::prepare_branch(20), 10);
    assert_eq!(TreeNode::prepare_branch(126), 63);
    assert_eq!(TreeNode::prepare_branch(127), 63);
    assert_eq!(TreeNode::prepare_branch(1), 0);
}

#[test]
fn a_leaf_is_prepared_with_its_top_bit_set() {
    assert_eq!(TreeNode::prepare_branch(0), 0x80);
    assert_eq!(TreeNode::prepare_branch(-1), 0x81);
    assert_eq!(TreeNode::prepare_branch(-5), 0x85);
    assert_eq!(TreeNode::prepare_branch(-11), 0x8B);
    assert_eq!(TreeNode::prepare_branch(-127), 0xFF);
}

#[test]
fn the_symbol_of_a_prepared_leaf_is_its_low_seven_bits() {
    assert_eq!(TreeNode::value_from_branch(0x80), 0);
    assert_eq!(TreeNode::value_from_branch(0x85), 5);
    assert_eq!(TreeNode::value_from_branch(0xFF), 127);
    assert_eq!(TreeNode::value_from_branch(0x00), 0);
    assert_eq!(TreeNode::value_from_branch(0x3F), 63);
    assert_eq!(TreeNode::value_from_branch(0x7F), 127);
}

#[test]
fn every_leaf_comes_back_negated() {
    for entry in -127..=0i8 {
        let branch = TreeNode::prepare_branch(entry);
        assert!(branch >= 0x80);
        assert_eq!(TreeNode::value_from_branch(branch), -entry);
    }
}

#[test]
fn no_branch_is_taken_for_a_leaf() {
    for entry in 1..=127i8 {
        let branch = TreeNode::prepare_branch(entry);
        assert!(branch < 0x80);
        assert_eq!(i16::from(branch), i16::from(entry) / 2);
    }
}

#[test]
fn a_node_holds_what_it_is_given() {
    let node = TreeNode {
        left: TreeNode::prepare_branch(-3),
        right: TreeNode::prepare_branch(4),
        prob: 200,
        index: 1,
    };
    let copy = node;
    assert_eq!(node.left, 0x83);
    assert_eq!(copy.right, 2);
    assert_eq!(copy.prob, 200);
    assert_eq!(node.index, 1);
}

#[test]
fn a_node_not_filled_in_is_all_zeros() {
    let node = TreeNode::uninit();
    assert_eq!(node.left, 0);
    assert_eq!(node.right, 0);
    assert_eq!(node.prob, 0);
    assert_eq!(node.index, 0);
}
