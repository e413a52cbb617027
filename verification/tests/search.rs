use netcon::encoder::{represent_binary, AbstractTensor, EncodeError};
use netcon::exhaustive::exhaustive_search;
use netcon::greedy::greedy_search;
use netcon::decode::sequence_from_repr;

fn tensor(name: &str, shape: Vec<u64>, legs: Vec<i8>) -> AbstractTensor {
    AbstractTensor { name: name.to_string(), shape, legs }
}

#[test]
fn two_tensor_contraction() {
    let tensors = vec![
        tensor("A", vec![4, 3], vec![1, -1]),
        tensor("B", vec![4, 5], vec![1, -2]),
    ];
    let (legs_indices, legs_dim, tensor_repr) = represent_binary(&tensors).unwrap();
    // contracted label 1 on the low bit, then the open labels by absolute value
    assert_eq!(legs_indices, vec![1, -1, -2]);
    assert_eq!(legs_dim, vec![4, 3, 5]);
    assert_eq!(tensor_repr, vec![0b011, 0b101]);
    let (sequence_repr, best) = exhaustive_search(&legs_dim, tensor_repr).unwrap();
    assert_eq!(best.cpu, 60);
    // memory bound: both operands (12 and 20 entries) live next to the
    // larger of the operands and the 15-entry result
    assert_eq!(best.mem, 12 + 20 + 20);
    assert_eq!(sequence_repr, vec![0, 1]);
    let sequence = sequence_from_repr(&legs_indices, sequence_repr);
    assert_eq!(sequence, vec![vec![1]]);
}

#[test]
fn chain_of_three() {
    let tensors = vec![
        tensor("A", vec![10, 10], vec![1, -1]),
        tensor("B", vec![10, 10], vec![1, 2]),
        tensor("C", vec![10, 10], vec![2, -2]),
    ];
    let (_legs_indices, legs_dim, tensor_repr) = represent_binary(&tensors).unwrap();
    let (sequence_repr, best) = exhaustive_search(&legs_dim, tensor_repr).unwrap();
    // both orders (AB then C, BC then A) tie: 10^3 for the first pair and
    // 10^3 for joining the third tensor
    assert_eq!(best.cpu, 2000);
    assert_eq!(sequence_repr.len(), 3);
    assert_eq!(sequence_repr[0], 0);
    assert_eq!(sequence_repr[2], 0b11);
}

#[test]
fn ctmrg_square() {
    // C-0-T1, C-1-T2, T1-2-E, T2-3-E; open legs -1 on T1, -3 on T2, -2/-4 on E
    let tensors = vec![
        tensor("C", vec![20, 20], vec![0, 1]),
        tensor("T1", vec![20, 9, 20], vec![0, 2, -1]),
        tensor("T2", vec![20, 9, 20], vec![1, 3, -3]),
        tensor("E", vec![9, 9, 9, 9], vec![2, 3, -2, -4]),
    ];
    let (legs_indices, legs_dim, tensor_repr) = represent_binary(&tensors).unwrap();
    assert_eq!(legs_indices, vec![0, 1, 2, 3, -1, -2, -3, -4]);
    assert_eq!(tensor_repr, vec![3, 21, 74, 172]);
    let (sequence_repr, best) = exhaustive_search(&legs_dim, tensor_repr).unwrap();
    assert_eq!(*sequence_repr.last().unwrap(), 15);
    assert!(
        sequence_repr == vec![0, 1, 3, 15] || sequence_repr == vec![0, 2, 3, 15],
        "unexpected sequence {:?} with cpu {}",
        sequence_repr,
        best.cpu
    );
    let sequence = sequence_from_repr(&legs_indices, sequence_repr);
    assert_eq!(*sequence.last().unwrap(), vec![2, 3]);
}

#[test]
fn triangle() {
    // every pair shares exactly one label; no open legs
    let tensors = vec![
        tensor("A", vec![2, 2], vec![1, 2]),
        tensor("B", vec![2, 2], vec![1, 3]),
        tensor("C", vec![2, 2], vec![2, 3]),
    ];
    let (_legs_indices, legs_dim, tensor_repr) = represent_binary(&tensors).unwrap();
    let (sequence_repr, best) = exhaustive_search(&legs_dim, tensor_repr).unwrap();
    // all three orders tie: one pair at 2*2*2, then the rest at 2*2
    assert_eq!(best.cpu, 12);
    assert_eq!(best.id, 0b111);
    assert_eq!(sequence_repr.len(), 3);
    assert_eq!(sequence_repr[0], 0);
    assert!(sequence_repr[1] == 1 || sequence_repr[1] == 2 || sequence_repr[1] == 4);
    assert_eq!(sequence_repr[2], 0b111);
}

#[test]
fn disconnected_input() {
    let tensors = vec![
        tensor("A", vec![2], vec![1]),
        tensor("B", vec![2], vec![1]),
        tensor("C", vec![2], vec![2]),
        tensor("D", vec![2], vec![2]),
    ];
    assert_eq!(represent_binary(&tensors).unwrap_err(), EncodeError::NotConnected);
}

#[test]
fn trace_rejected() {
    let tensors = vec![
        tensor("A", vec![2, 2], vec![1, 1]),
        tensor("B", vec![2], vec![1]),
    ];
    assert_eq!(represent_binary(&tensors).unwrap_err(), EncodeError::Trace { tensor: 0 });
}

#[test]
fn overflow_tolerance() {
    // contracting A with B first would overflow; the cheap order does not
    let big: u64 = 1 << 62;
    let tensors = vec![
        tensor("A", vec![2, big], vec![1, -1]),
        tensor("B", vec![2, 4], vec![1, 2]),
        tensor("C", vec![4], vec![2]),
    ];
    let (_legs_indices, legs_dim, tensor_repr) = represent_binary(&tensors).unwrap();
    let (greedy_seq, greedy_tn) = greedy_search(&legs_dim, tensor_repr.clone()).unwrap();
    let (sequence_repr, best) = exhaustive_search(&legs_dim, tensor_repr).unwrap();
    assert!(best.cpu <= greedy_tn.cpu);
    assert_eq!(best.cpu, 8 + (1u64 << 63));
    assert_eq!(greedy_seq.len(), sequence_repr.len());
}

#[test]
fn length_mismatch_rejected() {
    let tensors = vec![tensor("A", vec![2, 2], vec![1])];
    assert_eq!(
        represent_binary(&tensors).unwrap_err(),
        EncodeError::LengthMismatch { tensor: 0 }
    );
}

#[test]
fn invalid_dimension_rejected() {
    let tensors = vec![
        tensor("A", vec![2, 1], vec![1, -1]),
        tensor("B", vec![2], vec![1]),
    ];
    assert_eq!(
        represent_binary(&tensors).unwrap_err(),
        EncodeError::InvalidDimension { tensor: 0, leg: 1 }
    );
}

#[test]
fn triple_leg_rejected() {
    let tensors = vec![
        tensor("A", vec![2], vec![1]),
        tensor("B", vec![2], vec![1]),
        tensor("C", vec![2], vec![1]),
    ];
    assert_eq!(represent_binary(&tensors).unwrap_err(), EncodeError::TripleLeg { label: 1 });
}

#[test]
fn dimension_mismatch_rejected() {
    let tensors = vec![
        tensor("A", vec![2], vec![1]),
        tensor("B", vec![3], vec![1]),
    ];
    assert_eq!(
        represent_binary(&tensors).unwrap_err(),
        EncodeError::DimensionMismatch { label: 1 }
    );
}

#[test]
fn too_many_legs_rejected() {
    // 65 distinct open labels on one tensor
    let mut shape: Vec<u64> = Vec::new();
    let mut legs: Vec<i8> = Vec::new();
    for i in 0..65i16 {
        shape.push(2);
        legs.push(-(i as i8) - 1i8);
    }
    let tensors = vec![tensor("A", shape, legs)];
    assert_eq!(represent_binary(&tensors).unwrap_err(), EncodeError::TooManyLegs);
}

#[test]
fn encode_decode_round_trip() {
    // the decoded labels of one full contraction are exactly the closed labels
    let tensors = vec![
        tensor("A", vec![2, 3, 5], vec![7, -3, 4]),
        tensor("B", vec![2, 3, 5], vec![7, -6, 4]),
    ];
    let (legs_indices, legs_dim, tensor_repr) = represent_binary(&tensors).unwrap();
    // closed labels 4 and 7 on the low bits, sorted by absolute value
    assert_eq!(legs_indices, vec![4, 7, -3, -6]);
    assert_eq!(legs_dim, vec![5, 2, 3, 3]);
    let (sequence_repr, best) = exhaustive_search(&legs_dim, tensor_repr).unwrap();
    assert_eq!(best.cpu, 2 * 3 * 5 * 3);
    let sequence = sequence_from_repr(&legs_indices, sequence_repr);
    assert_eq!(sequence, vec![vec![4, 7]]);
}

#[test]
fn greedy_can_be_beaten() {
    // the cheapest first step (A with B) leads to a costlier total than
    // contracting B with C first; the exhaustive search must find the latter
    let tensors = vec![
        tensor("A", vec![2, 3], vec![-1, 1]),
        tensor("B", vec![3, 50], vec![1, 2]),
        tensor("C", vec![50, 2], vec![2, -2]),
    ];
    let (_legs_indices, legs_dim, tensor_repr) = represent_binary(&tensors).unwrap();
    let (_greedy_seq, greedy_tn) = greedy_search(&legs_dim, tensor_repr.clone()).unwrap();
    let (_sequence_repr, best) = exhaustive_search(&legs_dim, tensor_repr).unwrap();
    assert_eq!(greedy_tn.cpu, 500);
    assert_eq!(best.cpu, 312);
    assert!(best.cpu <= greedy_tn.cpu);
}
