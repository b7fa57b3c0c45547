use blis_gemm::thread::{
    broadcast_begin, broadcast_step, initial_slot_reads, split_position, split_should_create,
    BroadcastAction, BroadcastPhase, ThreadInfo,
};

#[test]
fn chief_waits_for_free_slot_then_publishes() {
    let chief = ThreadInfo::new(0, 3);
    let p = broadcast_begin(&chief);
    assert_eq!(p, BroadcastPhase::AwaitSlotFree);
    assert_eq!(broadcast_step(&chief, p, 1), (BroadcastPhase::AwaitSlotFree, BroadcastAction::Reload));
    assert_eq!(broadcast_step(&chief, p, 3), (BroadcastPhase::AwaitPublished, BroadcastAction::Publish));
}

#[test]
fn others_wait_for_publication_then_claim_once() {
    let t = ThreadInfo::new(2, 3);
    let p = broadcast_begin(&t);
    assert_eq!(p, BroadcastPhase::AwaitPublished);
    assert_eq!(broadcast_step(&t, p, 3), (BroadcastPhase::AwaitPublished, BroadcastAction::Reload));
    let (p2, act) = broadcast_step(&t, p, 0);
    assert_eq!((p2, act), (BroadcastPhase::Finished, BroadcastAction::Claim));
    assert_eq!(broadcast_step(&t, p2, 0), (BroadcastPhase::Finished, BroadcastAction::Return));
    assert_eq!(broadcast_step(&t, p2, 3), (BroadcastPhase::Finished, BroadcastAction::Return));
}

#[test]
fn whole_broadcast_round_simulated() {
    let n = 4;
    let mut reads = initial_slot_reads(n);
    assert_eq!(reads, n);
    let infos: Vec<ThreadInfo> = (0..n).map(|i| ThreadInfo::new(i, n)).collect();
    let mut phases: Vec<BroadcastPhase> = infos.iter().map(broadcast_begin).collect();
    let mut slot = 0u64;
    let mut got = vec![None; n];
    for _round in 0..10 {
        for i in 0..n {
            let (p, act) = broadcast_step(&infos[i], phases[i], reads);
            phases[i] = p;
            match act {
                BroadcastAction::Publish => {
                    slot = 42;
                    reads = 0;
                }
                BroadcastAction::Claim => {
                    reads += 1;
                    got[i] = Some(slot);
                }
                _ => {}
            }
        }
    }
    assert_eq!(got, vec![Some(42); n]);
    assert_eq!(reads, n);
}

#[test]
fn split_positions() {
    let t = ThreadInfo::new(5, 8);
    assert_eq!(split_position(&t, 2), (2, 1));
    assert_eq!(split_position(&t, 4), (1, 1));
    assert_eq!(split_position(&ThreadInfo::new(0, 8), 8), (0, 0));
}

#[test]
fn split_creation_decision() {
    assert!(split_should_create(0, false));
    assert!(!split_should_create(0, true));
    assert!(!split_should_create(1, false));
}

#[test]
fn scheduled_round_then_next_round() {
    // The chief decides and publishes, then each thread in turn claims:
    // 3 + 3 * n steps; afterwards the slot is free for the next round.
    let n = 3;
    let infos: Vec<ThreadInfo> = (0..n).map(|i| ThreadInfo::new(i, n)).collect();
    let mut reads = initial_slot_reads(n);
    let mut slot = 0i64;
    for value in [7i64, 9i64] {
        let mut phases: Vec<BroadcastPhase> = infos.iter().map(broadcast_begin).collect();
        let (p, act) = broadcast_step(&infos[0], phases[0], reads);
        assert_eq!(act, BroadcastAction::Publish);
        phases[0] = p;
        slot = value;
        reads = 0;
        for i in 0..n {
            let (p, act) = broadcast_step(&infos[i], phases[i], reads);
            assert_eq!((p, act), (BroadcastPhase::Finished, BroadcastAction::Claim));
            reads += 1;
            assert_eq!(slot, value);
        }
        assert_eq!(reads, n);
    }
}

#[test]
fn reverse_interleaving_every_thread_gets_the_chiefs_value() {
    // The last thread moves first and the chief last in every sweep; the
    // others spin until the chief has published, and no thread reads twice.
    let n = 5;
    let infos: Vec<ThreadInfo> = (0..n).map(|i| ThreadInfo::new(i, n)).collect();
    let mut phases: Vec<BroadcastPhase> = infos.iter().map(broadcast_begin).collect();
    let mut reads = initial_slot_reads(n);
    let mut slot = -1i64;
    let mut got = vec![None; n];
    let mut claims = vec![0usize; n];
    for _sweep in 0..4 {
        for i in (0..n).rev() {
            let (p, act) = broadcast_step(&infos[i], phases[i], reads);
            phases[i] = p;
            match act {
                BroadcastAction::Publish => {
                    slot = 11;
                    reads = 0;
                }
                BroadcastAction::Claim => {
                    assert_eq!(slot, 11);
                    reads += 1;
                    claims[i] += 1;
                    got[i] = Some(slot);
                }
                _ => {}
            }
            assert!(reads <= n);
        }
    }
    assert_eq!(got, vec![Some(11); n]);
    assert_eq!(claims, vec![1; n]);
    assert_eq!(reads, n);
}
