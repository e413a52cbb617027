use netcon::bits::{or_of, popcount, xor_of};
use netcon::connectivity::is_connex;
use netcon::network::TensorNetwork;

#[test]
fn popcount_values() {
    assert_eq!(popcount(0), 0);
    assert_eq!(popcount(0b1011), 3);
    assert_eq!(popcount(u64::MAX), 64);
}

#[test]
fn fold_masks() {
    let ts = vec![0b011u64, 0b101u64];
    assert_eq!(or_of(&ts), 0b111);
    assert_eq!(xor_of(&ts), 0b110);
    // closed legs: present in the OR, cancelled from the XOR
    assert_eq!(or_of(&ts) ^ xor_of(&ts), 0b001);
}

#[test]
fn single_tensor_is_connected() {
    assert!(is_connex(&vec![0b1u64]));
}

#[test]
fn split_network_is_not_connected() {
    assert!(!is_connex(&vec![0b001u64, 0b001u64, 0b110u64, 0b110u64]));
    assert!(is_connex(&vec![0b011u64, 0b110u64, 0b100u64]));
}

#[test]
fn measure_is_the_dimension_product() {
    let legs_dim = vec![4u64, 3, 5];
    let tn = TensorNetwork::new(&legs_dim, vec![0b011, 0b101]).unwrap();
    assert_eq!(tn.measure(&legs_dim, 0b011), 12);
    assert_eq!(tn.measure(&legs_dim, 0b101), 20);
    assert_eq!(tn.measure(&legs_dim, 0), 1);
    assert_eq!(tn.checked_measure(&legs_dim, 0b111), Some(60));
    // the root memory estimate is the total input size
    assert_eq!(tn.mem, 12 + 20);
}

#[test]
fn checked_measure_reports_overflow() {
    let legs_dim = vec![1 << 62, 1 << 62];
    let tn = TensorNetwork::new(&legs_dim, vec![0b01]).unwrap();
    assert_eq!(tn.checked_measure(&legs_dim, 0b11), None);
    assert_eq!(tn.checked_measure(&legs_dim, 0b01), Some(1 << 62));
}

#[test]
fn root_construction_fails_on_oversized_tensor() {
    let legs_dim = vec![1 << 62, 1 << 62];
    assert!(TensorNetwork::new(&legs_dim, vec![0b11]).is_none());
}

#[test]
fn contract_tensors_step() {
    // two tensors sharing the low bit: cost is the full index set product
    let legs_dim = vec![4u64, 3, 5];
    let parent = TensorNetwork::new(&legs_dim, vec![0b011, 0b101]).unwrap();
    let child = parent.contract_tensors(&legs_dim, 0, 1).unwrap();
    assert_eq!(child.cpu, 60);
    assert!(child.cpu >= parent.cpu);
    assert_eq!(child.id, 0b001);
    assert_eq!(child.parent, 0);
    assert_eq!(child.tensors, vec![0b110]);
    // leg conservation: the XOR of the live tensors is unchanged
    assert_eq!(0b011u64 ^ 0b101u64, 0b110);
    // the identity strictly grew by the shared leg
    assert_eq!(child.id & parent.id, parent.id);
    assert!(child.id != parent.id);
}

#[test]
fn contract_tensors_refuses_outer_product() {
    let legs_dim = vec![2u64, 2];
    let parent = TensorNetwork::new(&legs_dim, vec![0b01, 0b10]).unwrap();
    assert!(parent.contract_tensors(&legs_dim, 0, 1).is_none());
}

#[test]
fn generate_children_lists_contractible_pairs() {
    // triangle: three pairs, all contractible
    let legs_dim = vec![2u64, 2, 2];
    let root = TensorNetwork::new(&legs_dim, vec![0b011, 0b101, 0b110]).unwrap();
    let children = root.generate_children(&legs_dim);
    assert_eq!(children.len(), 3);
    for child in &children {
        assert_eq!(child.cpu, 8);
        assert_eq!(child.tensors.len(), 2);
    }
}
