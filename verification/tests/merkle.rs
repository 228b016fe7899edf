use repx::merkle::{
    build_merkle_tree, diff_leaf_sets, root_from_leaves, sorted_difference, MerkleNode, MerkleTree,
};
use repx::operation::{finalize_ops, CanonicalOp, OpType};

fn texts(list: &[&str]) -> Vec<String> {
    list.iter().map(|text| text.to_string()).collect()
}

fn tree(leaves: &[&str]) -> MerkleTree {
    MerkleTree { leaves: texts(leaves), nodes: Vec::new(), leaf_count: leaves.len() }
}

fn op(op_type: OpType, process_index: u32, input: &str) -> CanonicalOp {
    CanonicalOp {
        op_type,
        process_index,
        tool_hash: Some("sha256:tool".to_string()),
        args: vec![],
        input_hashes: texts(&[input]),
        output_hashes: vec![],
    }
}

#[test]
fn set_diff_does_not_cascade_after_an_insertion() {
    let expected = tree(&["a", "c"]);
    let actual = tree(&["a", "b", "c"]);

    let diff = diff_leaf_sets(&expected, &actual);
    assert!(diff.missing.is_empty());
    assert_eq!(diff.added, vec!["b"]);
}

#[test]
fn differences_go_both_ways() {
    let diff = diff_leaf_sets(&tree(&["d", "a", "b"]), &tree(&["c", "a"]));
    assert_eq!(diff.missing, vec!["b", "d"]);
    assert_eq!(diff.added, vec!["c"]);
    let none = diff_leaf_sets(&tree(&["b", "a", "b"]), &tree(&["a", "b"]));
    assert!(none.missing.is_empty() && none.added.is_empty());
    assert_eq!(sorted_difference(&texts(&["a", "b", "c"]), &texts(&["b"])), vec!["a", "c"]);
}

#[test]
fn roots_are_those_of_the_padded_binary_tree() {
    assert_eq!(
        root_from_leaves(&vec![]),
        "sha256:de08b81728e4a21b4fc01b08f49ba16a9e48a880dd8e4631603cce31f2b87cb9"
    );
    assert_eq!(root_from_leaves(&texts(&["a"])), "a");
    assert_eq!(
        root_from_leaves(&texts(&["a", "b"])),
        "sha256:fb8e20fc2e4c3f248c60c39bd652f3c1347298bb977b8b4d5903b85055620603"
    );
    assert_eq!(
        root_from_leaves(&texts(&["a", "b", "c"])),
        "sha256:e218cee976fc88947571f62fceecfad662f72a4e7c2e750edbd3413ba8f70b61"
    );
    assert_eq!(
        root_from_leaves(&texts(&["a", "b", "c", "d", "e"])),
        "sha256:5f7a9b4670693d9a6803348006596850e4bd518889e19c2879520bc6fa1696f6"
    );
    assert_ne!(root_from_leaves(&texts(&["a", "b"])), root_from_leaves(&texts(&["b", "a"])));
}

#[test]
fn trees_hold_the_set_of_operation_hashes() {
    let read = op(OpType::FileRead, 0, "sha256:input");
    let again = op(OpType::FileRead, 7, "sha256:input");
    let write = op(OpType::FileWrite, 0, "sha256:input");
    assert_eq!(read.hash(), again.hash());
    assert_ne!(read.hash(), write.hash());
    let mut leaves = vec![read.hash(), write.hash()];
    leaves.sort();
    let ops = finalize_ops(vec![write.duplicate(), again, read]);
    let built = build_merkle_tree(&ops);
    assert_eq!(built.leaves, leaves);
    assert_eq!(built.leaf_count, 2);
    assert!(built.nodes.is_empty());
    assert_eq!(built.root_hash(), root_from_leaves(&leaves));
    assert_eq!(built.leaf_hashes(), leaves);
}

#[test]
fn operations_are_hashed_over_their_parts() {
    let exec = CanonicalOp {
        op_type: OpType::Exec,
        process_index: 3,
        tool_hash: Some("T".to_string()),
        args: texts(&["x", "y"]),
        input_hashes: texts(&["i"]),
        output_hashes: texts(&["o"]),
    };
    assert_eq!(exec.op_tag(), "exec");
    assert_eq!(
        exec.hash(),
        "sha256:8273d6627dea3673b4e625a18720ebb2a060bed44fb7d739578a2b29b5951659"
    );
    let bare = CanonicalOp {
        op_type: OpType::ExternalFileWrite,
        process_index: u32::MAX,
        tool_hash: None,
        args: vec![],
        input_hashes: vec![],
        output_hashes: vec![],
    };
    assert_eq!(
        bare.hash(),
        "sha256:49ec47e438a05107d76e9254de55bfd9997aed0dd8f917b3ceef3bcf6146ffb8"
    );
}

#[test]
fn old_trees_give_their_leaves_from_their_nodes() {
    let old = MerkleTree {
        leaves: vec![],
        nodes: vec![
            MerkleNode { hash: "root".to_string(), is_leaf: false },
            MerkleNode { hash: "left".to_string(), is_leaf: false },
            MerkleNode { hash: "right".to_string(), is_leaf: false },
            MerkleNode { hash: "a".to_string(), is_leaf: true },
            MerkleNode { hash: "b".to_string(), is_leaf: true },
            MerkleNode { hash: "c".to_string(), is_leaf: true },
            MerkleNode { hash: "padding".to_string(), is_leaf: true },
        ],
        leaf_count: 3,
    };
    assert_eq!(old.leaf_hashes(), vec!["a", "b", "c"]);
    assert_eq!(
        old.root_hash(),
        "sha256:e218cee976fc88947571f62fceecfad662f72a4e7c2e750edbd3413ba8f70b61"
    );
}

#[test]
fn finalized_operations_are_a_sorted_set() {
    let a = op(OpType::FileRead, 0, "sha256:a");
    let b = op(OpType::FileRead, 1, "sha256:b");
    let forward = finalize_ops(vec![a.duplicate(), b.duplicate(), a.duplicate()]);
    let backward = finalize_ops(vec![b, a]);
    let hashes = |ops: &Vec<CanonicalOp>| ops.iter().map(|op| op.hash()).collect::<Vec<_>>();
    assert_eq!(forward.len(), 2);
    assert_eq!(hashes(&forward), hashes(&backward));
    let mut sorted = hashes(&forward);
    sorted.sort();
    assert_eq!(sorted, hashes(&forward));
}

#[test]
fn different_operations_have_different_roots() {
    let ops = |n: usize| (0..n).map(|i| op(OpType::FileRead, 0, &format!("{i}"))).collect::<Vec<_>>();
    let roots: Vec<String> = (0..9).map(|n| build_merkle_tree(&ops(n)).root_hash()).collect();
    for i in 0..roots.len() {
        for j in 0..i {
            assert_ne!(roots[i], roots[j]);
        }
    }
}

#[test]
fn roots_are_the_parents_of_their_halves() {
    let left = root_from_leaves(&texts(&["a", "b"]));
    let four = root_from_leaves(&texts(&["a", "b", "c", "d"]));
    let right = root_from_leaves(&texts(&["c", "d"]));
    assert_eq!(four, root_from_leaves(&vec![left.clone(), right]));
    let lone = root_from_leaves(&texts(&["padding", "padding"]));
    let filled = root_from_leaves(&vec!["c".to_string(), lone]);
    let three = root_from_leaves(&texts(&["a", "b", "c"]));
    assert_eq!(three, root_from_leaves(&vec![left, filled]));
}
