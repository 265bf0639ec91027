use honey_badger::subset::Subset;
use honey_badger::util::clone_bytes;
use honey_badger::util::eq_bytes;

#[test]
fn subset_outputs_accepted_ciphertexts() {
    let mut s = Subset::new(4);
    assert!(!s.poll());
    s.handle_echo(1, b"a".to_vec());
    s.handle_decided(0, false);
    s.handle_decided(1, true);
    s.handle_decided(2, false);
    assert!(!s.poll());
    s.handle_decided(3, false);
    assert!(s.poll());
    let out = s.take_output();
    assert_eq!(out, vec![None, Some(b"a".to_vec()), None, None]);
    assert!(!s.poll());
}

#[test]
fn first_echo_per_proposer_wins() {
    let mut s = Subset::new(4);
    s.handle_echo(2, b"first".to_vec());
    s.handle_echo(2, b"second".to_vec());
    for p in 0..4 {
        s.handle_decided(p, p == 2);
    }
    let out = s.take_output();
    assert_eq!(out[2], Some(b"first".to_vec()));
}

#[test]
fn first_decision_per_proposer_wins() {
    let mut s = Subset::new(4);
    s.handle_echo(1, b"a".to_vec());
    s.handle_decided(1, true);
    s.handle_decided(1, false);
    for p in [0, 2, 3] {
        s.handle_decided(p, false);
    }
    let out = s.take_output();
    assert_eq!(out[1], Some(b"a".to_vec()));
}

#[test]
fn accepted_proposer_without_delivery_blocks_readiness() {
    let mut s = Subset::new(4);
    for p in 0..4 {
        s.handle_decided(p, p == 1);
    }
    // Proposer 1 is accepted but its broadcast has not delivered yet.
    assert!(!s.poll());
    s.handle_echo(1, b"late".to_vec());
    assert!(s.poll());
}

#[test]
fn terminated_instance_ignores_everything() {
    let mut s = Subset::new(4);
    for p in 0..4 {
        s.handle_decided(p, false);
    }
    let out = s.take_output();
    assert_eq!(out, vec![None, None, None, None]);
    // Late outcomes change nothing; the instance terminated exactly once.
    s.handle_echo(0, b"x".to_vec());
    s.handle_decided(0, true);
    assert!(!s.poll());
}

#[test]
fn byte_helpers_compare_and_copy_contents() {
    let a = b"abc".to_vec();
    let b = clone_bytes(&a);
    assert_eq!(a, b);
    assert!(eq_bytes(&a, &b));
    assert!(!eq_bytes(&a, &b"abd".to_vec()));
    assert!(!eq_bytes(&a, &b"ab".to_vec()));
    assert!(eq_bytes(&Vec::new(), &Vec::new()));
}
