use honey_badger::builder::HoneyBadgerBuilder;
use honey_badger::driver::HoneyBadger;
use honey_badger::driver::Step;
use honey_badger::fault::Error;
use honey_badger::fault::FaultKind;
use honey_badger::message::Message;
use honey_badger::message::MessageContent;
use honey_badger::message::SubsetMessage;
use honey_badger::netinfo::NetworkInfo;

fn netinfo(our_id: usize, num_nodes: usize, num_faulty: usize) -> NetworkInfo {
    NetworkInfo::new(our_id, num_nodes, num_faulty).unwrap()
}

fn driver(our_id: usize) -> HoneyBadger {
    HoneyBadgerBuilder::new(netinfo(our_id, 4, 1)).build()
}

fn echo(ciphertext: &[u8]) -> MessageContent {
    MessageContent::Subset(SubsetMessage::Echo { ciphertext: ciphertext.to_vec() })
}

fn decided(proposer: usize, accept: bool) -> MessageContent {
    MessageContent::Subset(SubsetMessage::Decided { proposer, accept })
}

fn share(proposer: usize, bytes: &[u8]) -> MessageContent {
    MessageContent::DecryptionShare { proposer, share: bytes.to_vec() }
}

fn assert_empty(step: &Step) {
    assert_eq!(step.messages.len(), 0);
    assert_eq!(step.outputs.len(), 0);
    assert_eq!(step.faults.len(), 0);
}

#[test]
fn netinfo_accepts_only_valid_memberships() {
    assert!(NetworkInfo::new(0, 4, 1).is_some());
    assert!(NetworkInfo::new(3, 4, 1).is_some());
    assert!(NetworkInfo::new(0, 3, 1).is_none());
    assert!(NetworkInfo::new(4, 4, 1).is_none());
    assert!(NetworkInfo::new(0, 0, 0).is_none());
    let ni = netinfo(2, 7, 2);
    assert_eq!(ni.our_id(), 2);
    assert_eq!(ni.num_nodes(), 7);
    assert_eq!(ni.num_faulty(), 2);
}

#[test]
fn builder_defaults_and_overrides() {
    let hb = HoneyBadgerBuilder::new(netinfo(0, 4, 1)).build();
    assert_eq!(hb.epoch(), 0);
    assert!(!hb.has_input());
    let mut b = HoneyBadgerBuilder::new(netinfo(1, 4, 1));
    b.max_future_epochs(5);
    let hb = b.build();
    assert_eq!(hb.epoch(), 0);
}

#[test]
fn propose_broadcasts_ciphertext_once() {
    let mut hb = driver(0);
    let step = hb.propose(b"payload".to_vec()).unwrap();
    assert!(hb.has_input());
    assert_eq!(step.messages.len(), 1);
    assert_eq!(step.messages[0].epoch, 0);
    match &step.messages[0].content {
        MessageContent::Subset(SubsetMessage::Echo { ciphertext }) => {
            assert_eq!(ciphertext, &b"payload".to_vec());
        }
        other => panic!("expected an echo broadcast, got {:?}", other),
    }
    assert_eq!(step.outputs.len(), 0);
    assert_eq!(step.faults.len(), 0);
}

#[test]
fn second_propose_in_same_epoch_is_rejected() {
    let mut hb = driver(0);
    hb.propose(b"first".to_vec()).unwrap();
    let r = hb.propose(b"second".to_vec());
    match r {
        Err(e) => assert_eq!(e, Error::AlreadyProposed),
        Ok(_) => panic!("second propose in the same epoch must be rejected"),
    }
    assert_eq!(hb.epoch(), 0);
    assert!(hb.has_input());
}

#[test]
fn unknown_sender_is_faulted() {
    let mut hb = driver(0);
    let step = hb.handle_message(9, 0, echo(b"x"));
    assert_eq!(step.faults.len(), 1);
    assert_eq!(step.faults[0].sender, 9);
    assert_eq!(step.faults[0].kind, FaultKind::UnknownSender);
    assert_eq!(step.messages.len(), 0);
    assert_eq!(step.outputs.len(), 0);
}

#[test]
fn message_beyond_lookahead_window_is_rejected() {
    // max_future_epochs is 3: epoch 4 = current + max + 1 must be rejected
    // with an overflow fault and no state change.
    let mut hb = driver(0);
    let step = hb.handle_message(1, 4, echo(b"x"));
    assert_eq!(step.faults.len(), 1);
    assert_eq!(step.faults[0].sender, 1);
    assert_eq!(step.faults[0].kind, FaultKind::EpochBeyondWindow);
    assert_eq!(step.messages.len(), 0);
    assert_eq!(step.outputs.len(), 0);
    assert_eq!(hb.epoch(), 0);
    // The last epoch still inside the window is buffered silently.
    let step = hb.handle_message(1, 3, echo(b"x"));
    assert_empty(&step);
}

#[test]
fn stale_message_is_discarded_silently() {
    let mut hb = driver(0);
    // Finalize epoch 0 as an empty batch: every proposer decided out.
    for p in 0..4 {
        hb.handle_message(1, 0, decided(p, false));
    }
    assert_eq!(hb.epoch(), 1);
    let step = hb.handle_message(2, 0, echo(b"late"));
    assert_empty(&step);
    assert_eq!(hb.epoch(), 1);
}

#[test]
fn invalid_proposer_is_faulted() {
    let mut hb = driver(0);
    let step = hb.handle_message(1, 0, decided(7, true));
    assert_eq!(step.faults.len(), 1);
    assert_eq!(step.faults[0].kind, FaultKind::InvalidProposer);
    let step = hb.handle_message(1, 0, share(7, b"s"));
    assert_eq!(step.faults.len(), 1);
    assert_eq!(step.faults[0].kind, FaultKind::InvalidProposer);
}

/// Drives node `our_id` to the point where epoch 0's subset output is
/// exactly {1} with ciphertext `ct`: proposer 1 echoed, 1 accepted, the
/// rest decided out.
fn subset_of_one(hb: &mut HoneyBadger, ct: &[u8]) -> Step {
    let s = hb.handle_message(1, 0, echo(ct));
    assert_empty(&s);
    hb.handle_message(1, 0, decided(0, false));
    hb.handle_message(1, 0, decided(2, false));
    hb.handle_message(1, 0, decided(3, false));
    hb.handle_message(1, 0, decided(1, true))
}

#[test]
fn own_share_is_disseminated_on_subset_output() {
    let mut hb = driver(0);
    let step = subset_of_one(&mut hb, b"ct");
    // The subset terminated: this node broadcasts its decryption share for
    // the single accepted proposer.
    assert_eq!(step.messages.len(), 1);
    assert_eq!(step.messages[0].epoch, 0);
    match &step.messages[0].content {
        MessageContent::DecryptionShare { proposer, share } => {
            assert_eq!(*proposer, 1);
            assert_eq!(share, &b"ct".to_vec());
        }
        other => panic!("expected a decryption share, got {:?}", other),
    }
    // Own share alone is f = 1 valid shares: no contribution yet.
    assert_eq!(step.outputs.len(), 0);
    assert_eq!(hb.epoch(), 0);
}

#[test]
fn quorum_of_valid_shares_reconstructs() {
    // f = 1 silent faulty node: f + 1 = 2 valid shares suffice, f never do.
    let mut hb = driver(0);
    subset_of_one(&mut hb, b"ct");
    // One more valid share (own share is already counted) reaches quorum.
    let step = hb.handle_message(2, 0, share(1, b"ct"));
    assert_eq!(step.outputs.len(), 1);
    assert_eq!(step.outputs[0].epoch, 0);
    assert_eq!(step.outputs[0].contributions, vec![(1, b"ct".to_vec())]);
    assert_eq!(hb.epoch(), 1);
    assert!(!hb.has_input());
}

#[test]
fn f_shares_never_reconstruct() {
    // With a quorum of 3 (f = 2), two valid shares — own plus one peer —
    // must not reconstruct; the third does.
    let mut hb = HoneyBadgerBuilder::new(netinfo(0, 7, 2)).build();
    hb.handle_message(1, 0, echo(b"ct"));
    for p in [0, 2, 3, 4, 5, 6] {
        hb.handle_message(1, 0, decided(p, false));
    }
    let step = hb.handle_message(1, 0, decided(1, true));
    assert_eq!(step.outputs.len(), 0);
    let step = hb.handle_message(2, 0, share(1, b"ct"));
    assert_eq!(step.outputs.len(), 0);
    assert_eq!(hb.epoch(), 0);
    let step = hb.handle_message(3, 0, share(1, b"ct"));
    assert_eq!(step.outputs.len(), 1);
    assert_eq!(hb.epoch(), 1);
}

#[test]
fn duplicate_share_does_not_count_twice() {
    // Quorum is 3 (f = 2): the same (proposer, sender, share) processed
    // twice leaves the aggregator where one processing left it.
    let mut hb = HoneyBadgerBuilder::new(netinfo(0, 7, 2)).build();
    hb.handle_message(1, 0, echo(b"ct"));
    for p in [0, 2, 3, 4, 5, 6] {
        hb.handle_message(1, 0, decided(p, false));
    }
    hb.handle_message(1, 0, decided(1, true));
    let step = hb.handle_message(2, 0, share(1, b"ct"));
    assert_empty(&step);
    // The duplicate is ignored: no fault, no output, no progress.
    let step = hb.handle_message(2, 0, share(1, b"ct"));
    assert_empty(&step);
    assert_eq!(hb.epoch(), 0);
    // A share from a distinct sender completes the quorum.
    let step = hb.handle_message(3, 0, share(1, b"ct"));
    assert_eq!(step.outputs.len(), 1);
    assert_eq!(step.outputs[0].contributions, vec![(1, b"ct".to_vec())]);
}

#[test]
fn invalid_share_is_faulted_and_ignored() {
    let mut hb = driver(0);
    subset_of_one(&mut hb, b"ct");
    let step = hb.handle_message(2, 0, share(1, b"bogus"));
    assert_eq!(step.faults.len(), 1);
    assert_eq!(step.faults[0].sender, 2);
    assert_eq!(step.faults[0].kind, FaultKind::InvalidDecryptionShare);
    assert_eq!(step.outputs.len(), 0);
    // A valid share from the same sender is still accepted afterwards.
    let step = hb.handle_message(2, 0, share(1, b"ct"));
    assert_eq!(step.outputs.len(), 1);
}

#[test]
fn share_buffered_before_subset_output_is_verified_later() {
    let mut hb = driver(0);
    // Shares arrive before the subset output is known: buffered unverified.
    let step = hb.handle_message(2, 0, share(1, b"ct"));
    assert_empty(&step);
    let step = hb.handle_message(3, 0, share(1, b"bad"));
    assert_empty(&step);
    // Once the subset terminates, the bad buffered share is faulted and the
    // good one joins this node's own share: quorum of 2 reached at once.
    let step = subset_of_one(&mut hb, b"ct");
    assert_eq!(step.faults.len(), 1);
    assert_eq!(step.faults[0].sender, 3);
    assert_eq!(step.faults[0].kind, FaultKind::InvalidDecryptionShare);
    assert_eq!(step.outputs.len(), 1);
    assert_eq!(step.outputs[0].contributions, vec![(1, b"ct".to_vec())]);
    assert_eq!(hb.epoch(), 1);
}

fn deliver_all(nodes: &mut Vec<HoneyBadger>, from: usize, messages: Vec<Message>) -> Vec<(usize, Message)> {
    let mut produced = Vec::new();
    for m in messages {
        for j in 0..nodes.len() {
            if j != from {
                let step = nodes[j].handle_message(from, m.epoch, m.content.clone());
                for out in step.messages {
                    produced.push((j, out));
                }
            }
        }
    }
    produced
}

#[test]
fn end_to_end_four_nodes() {
    // n = 4, f = 1; nodes 0..3 each propose a distinct payload for epoch 0;
    // the subset is {0, 1, 2} (node 3 decided out, e.g. slow); every node
    // outputs the same ordered batch and advances to epoch 1.
    let payloads: Vec<Vec<u8>> = vec![
        b"payload0".to_vec(),
        b"payload1".to_vec(),
        b"payload2".to_vec(),
        b"payload3".to_vec(),
    ];
    let mut nodes: Vec<HoneyBadger> =
        (0..4).map(|i| HoneyBadgerBuilder::new(netinfo(i, 4, 1)).build()).collect();
    let mut pending: Vec<(usize, Message)> = Vec::new();
    let mut outputs: Vec<Vec<(u64, Vec<(usize, Vec<u8>)>)>> = vec![Vec::new(); 4];
    for i in 0..4 {
        let step = nodes[i].propose(payloads[i].clone()).unwrap();
        for m in step.messages {
            pending.push((i, m));
        }
    }
    // The agreement collaborator decides the subset {0, 1, 2} everywhere.
    for j in 0..4 {
        for (p, accept) in [(0, true), (1, true), (2, true), (3, false)] {
            let sender = if j == 1 { 2 } else { 1 };
            let step = nodes[j].handle_message(sender, 0, decided(p, accept));
            for m in step.messages {
                pending.push((j, m));
            }
            for b in step.outputs {
                outputs[j].push((b.epoch, b.contributions));
            }
            assert!(step.faults.is_empty());
        }
    }
    // Let the network drain: every message reaches every other node.
    while let Some((from, m)) = pending.pop() {
        for j in 0..4 {
            if j != from {
                let step = nodes[j].handle_message(from, m.epoch, m.content.clone());
                for out in step.messages {
                    pending.push((j, out));
                }
                for b in step.outputs {
                    outputs[j].push((b.epoch, b.contributions));
                }
            }
        }
    }
    let expected = vec![
        (0, payloads[0].clone()),
        (1, payloads[1].clone()),
        (2, payloads[2].clone()),
    ];
    for j in 0..4 {
        assert_eq!(outputs[j].len(), 1, "node {} should finalize exactly epoch 0", j);
        assert_eq!(outputs[j][0].0, 0);
        assert_eq!(outputs[j][0].1, expected, "node {} batch differs", j);
        assert_eq!(nodes[j].epoch(), 1);
        assert!(!nodes[j].has_input());
    }
}

#[test]
fn queued_future_message_replays_on_cascade() {
    // A message for epoch 2 arrives while the driver is at epoch 0: it is
    // buffered; when epochs 0 and 1 finalize in sequence from other
    // traffic, it replays automatically without a fresh transport call.
    let mut hb = driver(0);
    let step = hb.handle_message(1, 2, echo(b"future"));
    assert_empty(&step);
    // Epoch 0 and epoch 1 finalize as empty batches: all proposers decided
    // out by the agreement collaborator.
    for p in 0..4 {
        let step = hb.handle_message(1, 0, decided(p, false));
        if p == 3 {
            assert_eq!(step.outputs.len(), 1);
            assert_eq!(step.outputs[0].epoch, 0);
            assert!(step.outputs[0].contributions.is_empty());
        }
    }
    assert_eq!(hb.epoch(), 1);
    for p in 0..4 {
        hb.handle_message(1, 1, decided(p, false));
    }
    assert_eq!(hb.epoch(), 2);
    // The buffered epoch-2 echo was replayed: accepting proposer 1 and one
    // peer share now finalizes epoch 2 with the buffered ciphertext,
    // without the echo ever being sent again.
    hb.handle_message(1, 2, decided(0, false));
    hb.handle_message(1, 2, decided(2, false));
    hb.handle_message(1, 2, decided(3, false));
    let step = hb.handle_message(1, 2, decided(1, true));
    assert_eq!(step.messages.len(), 1);
    let step = hb.handle_message(2, 2, share(1, b"future"));
    assert_eq!(step.outputs.len(), 1);
    assert_eq!(step.outputs[0].epoch, 2);
    assert_eq!(step.outputs[0].contributions, vec![(1, b"future".to_vec())]);
    assert_eq!(hb.epoch(), 3);
}

#[test]
fn configured_lookahead_moves_the_window() {
    let mut b = HoneyBadgerBuilder::new(netinfo(0, 4, 1));
    b.max_future_epochs(5);
    let mut hb = b.build();
    let step = hb.handle_message(1, 6, echo(b"x"));
    assert_eq!(step.faults.len(), 1);
    assert_eq!(step.faults[0].kind, FaultKind::EpochBeyondWindow);
    let step = hb.handle_message(1, 5, echo(b"x"));
    assert_empty(&step);
}

#[test]
fn propose_can_complete_a_waiting_subset() {
    // Every agreement outcome and peer delivery is already in; only this
    // node's own proposal is missing.  The propose call itself completes
    // the subset and disseminates this node's decryption shares.
    let mut hb = driver(0);
    hb.handle_message(1, 0, echo(b"theirs"));
    hb.handle_message(1, 0, decided(0, true));
    hb.handle_message(1, 0, decided(1, true));
    hb.handle_message(1, 0, decided(2, false));
    let step = hb.handle_message(1, 0, decided(3, false));
    assert_eq!(step.messages.len(), 0);
    let step = hb.propose(b"ours".to_vec()).unwrap();
    // One echo broadcast plus one decryption share per accepted proposer.
    assert_eq!(step.messages.len(), 3);
    // Quorums complete with one peer share per accepted proposer.
    hb.handle_message(2, 0, share(0, b"ours"));
    let step = hb.handle_message(2, 0, share(1, b"theirs"));
    assert_eq!(step.outputs.len(), 1);
    assert_eq!(
        step.outputs[0].contributions,
        vec![(0, b"ours".to_vec()), (1, b"theirs".to_vec())]
    );
    assert_eq!(hb.epoch(), 1);
}

#[test]
fn empty_contribution_is_carried_through() {
    let mut hb = driver(0);
    hb.handle_message(1, 0, echo(b""));
    hb.handle_message(1, 0, decided(0, false));
    hb.handle_message(1, 0, decided(2, false));
    hb.handle_message(1, 0, decided(3, false));
    hb.handle_message(1, 0, decided(1, true));
    let step = hb.handle_message(2, 0, share(1, b""));
    assert_eq!(step.outputs.len(), 1);
    assert_eq!(step.outputs[0].contributions, vec![(1, Vec::new())]);
}

#[test]
fn identical_ciphertexts_do_not_cross_talk() {
    // Proposers 1 and 3 (the largest identity) broadcast identical bytes;
    // each needs its own quorum and keeps its own slot in the batch.
    let mut hb = driver(0);
    hb.handle_message(1, 0, echo(b"same"));
    hb.handle_message(3, 0, echo(b"same"));
    hb.handle_message(1, 0, decided(0, false));
    hb.handle_message(1, 0, decided(2, false));
    hb.handle_message(1, 0, decided(1, true));
    hb.handle_message(1, 0, decided(3, true));
    // One peer share for proposer 1 only: epoch must not finalize yet.
    let step = hb.handle_message(2, 0, share(1, b"same"));
    assert_eq!(step.outputs.len(), 0);
    assert_eq!(hb.epoch(), 0);
    let step = hb.handle_message(2, 0, share(3, b"same"));
    assert_eq!(step.outputs.len(), 1);
    assert_eq!(
        step.outputs[0].contributions,
        vec![(1, b"same".to_vec()), (3, b"same".to_vec())]
    );
}

#[test]
fn second_propose_does_not_change_the_batch() {
    // The eventual output batch is unaffected by a rejected second propose.
    let mut hb = driver(0);
    hb.propose(b"mine".to_vec()).unwrap();
    assert!(hb.propose(b"other".to_vec()).is_err());
    // The subset accepts only this node's proposal.
    hb.handle_message(1, 0, decided(1, false));
    hb.handle_message(1, 0, decided(2, false));
    hb.handle_message(1, 0, decided(3, false));
    hb.handle_message(1, 0, decided(0, true));
    let step = hb.handle_message(2, 0, share(0, b"mine"));
    assert_eq!(step.outputs.len(), 1);
    assert_eq!(step.outputs[0].contributions, vec![(0, b"mine".to_vec())]);
}
