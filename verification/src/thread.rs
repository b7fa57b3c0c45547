use vstd::prelude::*;

verus! {

/// The place of a thread in a team of threads that share a communicator.
pub struct ThreadInfo {
    thread_id: usize,
    n_threads: usize,
}

impl ThreadInfo {
    pub closed spec fn id(&self) -> usize {
        self.thread_id
    }

    pub closed spec fn team_size(&self) -> usize {
        self.n_threads
    }

    /// Thread `thread_id` of a team of `n_threads`.
    pub fn new(thread_id: usize, n_threads: usize) -> (info: ThreadInfo)
        requires
            thread_id < n_threads,
        ensures
            info.id() == thread_id,
            info.team_size() == n_threads,
    {
        ThreadInfo { thread_id, n_threads }
    }

    pub fn thread_id(&self) -> (r: usize)
        ensures
            r == self.id(),
    {
        self.thread_id
    }

    pub fn n_threads(&self) -> (r: usize)
        ensures
            r == self.team_size(),
    {
        self.n_threads
    }
}

/// Where a thread stands in a broadcast over a communicator.
///
/// The communicator holds a slot and a count of the reads of the slot. While
/// the count equals the team size every thread has read the current value
/// and the slot is free; the chief (thread 0) then writes the slot and sets
/// the count to 0, and every thread, the chief too, reads the slot once and
/// adds one to the count.
#[derive(PartialEq, Eq, Structural, Clone, Copy, Debug)]
pub enum BroadcastPhase {
    /// The chief waits for the slot to be free.
    AwaitSlotFree,
    /// The thread waits for the chief to publish.
    AwaitPublished,
    /// The thread has read the slot.
    Finished,
}

/// What a thread does after a step of a broadcast.
#[derive(PartialEq, Eq, Structural, Clone, Copy, Debug)]
pub enum BroadcastAction {
    /// Load the read count again and take another step.
    Reload,
    /// Store the value to send in the slot, then store 0 in the read count;
    /// then load the read count and take another step.
    Publish,
    /// Add one to the read count and read the slot: the broadcast value.
    Claim,
    /// Nothing: the thread has its value.
    Return,
}

/// The phase a thread starts a broadcast in.
pub open spec fn spec_broadcast_begin(thread_id: usize) -> BroadcastPhase {
    if thread_id == 0 {
        BroadcastPhase::AwaitSlotFree
    } else {
        BroadcastPhase::AwaitPublished
    }
}

/// The next phase and action of a thread of a team of `n_threads` in
/// `phase` that has just loaded `slot_reads` from the read count.
pub open spec fn spec_broadcast_step(n_threads: usize, phase: BroadcastPhase, slot_reads: usize) -> (
    BroadcastPhase,
    BroadcastAction,
) {
    match phase {
        BroadcastPhase::AwaitSlotFree => if slot_reads != n_threads {
            (BroadcastPhase::AwaitSlotFree, BroadcastAction::Reload)
        } else {
            (BroadcastPhase::AwaitPublished, BroadcastAction::Publish)
        },
        BroadcastPhase::AwaitPublished => if slot_reads == n_threads {
            (BroadcastPhase::AwaitPublished, BroadcastAction::Reload)
        } else {
            (BroadcastPhase::Finished, BroadcastAction::Claim)
        },
        BroadcastPhase::Finished => (BroadcastPhase::Finished, BroadcastAction::Return),
    }
}

/// The phase in which `info`'s thread starts a broadcast: the chief first
/// waits for the slot to be free, the others for the chief to publish.
pub fn broadcast_begin(info: &ThreadInfo) -> (phase: BroadcastPhase)
    ensures
        phase == spec_broadcast_begin(info.id()),
        info.id() == 0 ==> phase == BroadcastPhase::AwaitSlotFree,
        info.id() != 0 ==> phase == BroadcastPhase::AwaitPublished,
{
    if info.thread_id() == 0 {
        BroadcastPhase::AwaitSlotFree
    } else {
        BroadcastPhase::AwaitPublished
    }
}

/// One decision of a broadcast: `info`'s thread, in `phase`, has loaded
/// `slot_reads` from the communicator's read count.
pub fn broadcast_step(info: &ThreadInfo, phase: BroadcastPhase, slot_reads: usize) -> (r: (
    BroadcastPhase,
    BroadcastAction,
))
    ensures
        r == spec_broadcast_step(info.team_size(), phase, slot_reads),
        phase == BroadcastPhase::AwaitSlotFree && slot_reads != info.team_size() ==> r == (
            BroadcastPhase::AwaitSlotFree,
            BroadcastAction::Reload,
        ),
        phase == BroadcastPhase::AwaitSlotFree && slot_reads == info.team_size() ==> r == (
            BroadcastPhase::AwaitPublished,
            BroadcastAction::Publish,
        ),
        phase == BroadcastPhase::AwaitPublished && slot_reads == info.team_size() ==> r == (
            BroadcastPhase::AwaitPublished,
            BroadcastAction::Reload,
        ),
        phase == BroadcastPhase::AwaitPublished && slot_reads != info.team_size() ==> r == (
            BroadcastPhase::Finished,
            BroadcastAction::Claim,
        ),
        phase == BroadcastPhase::Finished ==> r == (BroadcastPhase::Finished, BroadcastAction::Return),
{
    let n = info.n_threads();
    match phase {
        BroadcastPhase::AwaitSlotFree => {
            if slot_reads != n {
                (BroadcastPhase::AwaitSlotFree, BroadcastAction::Reload)
            } else {
                (BroadcastPhase::AwaitPublished, BroadcastAction::Publish)
            }
        },
        BroadcastPhase::AwaitPublished => {
            if slot_reads == n {
                (BroadcastPhase::AwaitPublished, BroadcastAction::Reload)
            } else {
                (BroadcastPhase::Finished, BroadcastAction::Claim)
            }
        },
        BroadcastPhase::Finished => (BroadcastPhase::Finished, BroadcastAction::Return),
    }
}

/// The read count of a fresh communicator of `n_threads`: the slot is free.
pub fn initial_slot_reads(n_threads: usize) -> (r: usize)
    ensures
        r == n_threads,
{
    n_threads
}

/// Where `info`'s thread goes when its team is split into sub-teams of
/// `n_way` consecutive threads: the sub-team's number and the thread's id in
/// it.
pub fn split_position(info: &ThreadInfo, n_way: usize) -> (r: (usize, usize))
    requires
        0 < n_way,
        info.id() < info.team_size(),
        info.team_size() % n_way == 0,
    ensures
        r.0 == info.id() / n_way,
        r.1 == info.id() % n_way,
        r.0 < info.team_size() / n_way,
        r.1 < n_way,
        r.0 * n_way + r.1 == info.id(),
{
    let id = info.thread_id();
    let n = info.n_threads();
    let number = id / n_way;
    let sub_id = id % n_way;
    proof {
        vstd::arithmetic::div_mod::lemma_fundamental_div_mod(id as int, n_way as int);
        vstd::arithmetic::div_mod::lemma_fundamental_div_mod(n as int, n_way as int);
        vstd::arithmetic::div_mod::lemma_mod_pos_bound(id as int, n_way as int);
        assert(number < n / n_way) by (nonlinear_arith)
            requires
                id < n,
                id == n_way * number + sub_id,
                n == n_way * (n / n_way),
                0 <= sub_id,
                0 < n_way,
        ;
        assert(number * n_way == n_way * number) by (nonlinear_arith);
    }
    (number, sub_id)
}

/// Whether the leader of a sub-team creates the sub-team's communicator,
/// given whether its slot in the registry is still empty: the communicator
/// is stored when the slot already holds one, and only by the sub-team's
/// thread 0.
///
/// The test keeps the protocol's inverted null check on purpose: with it, a
/// registry whose slots all start empty never receives a communicator, and
/// every thread that splits waits for its slot forever. A split is therefore
/// only usable once something else has filled the slot; the communicator the
/// leader then stores is sized like the whole parent team, not like the
/// sub-team of `n_way` threads.
pub fn split_should_create(sub_comm_id: usize, slot_is_empty: bool) -> (r: bool)
    ensures
        r == (sub_comm_id == 0 && !slot_is_empty),
{
    sub_comm_id == 0 && !slot_is_empty
}

/// The slot is written only when it is free: the chief publishes only after
/// it has seen the read count equal to the team size.
pub proof fn lemma_publish_only_when_free(n_threads: usize, phase: BroadcastPhase, slot_reads: usize)
    ensures
        spec_broadcast_step(n_threads, phase, slot_reads).1 == BroadcastAction::Publish <==> {
            &&& phase == BroadcastPhase::AwaitSlotFree
            &&& slot_reads == n_threads
        },
{
}

/// The chief waits for a free slot until the read count equals the team
/// size: on any other count it stays in the wait and loads again, and it
/// leaves the wait only by publishing, which it does on a full count.
pub proof fn lemma_chief_waits_for_free_slot(n_threads: usize, slot_reads: usize)
    ensures
        slot_reads != n_threads ==> spec_broadcast_step(n_threads, BroadcastPhase::AwaitSlotFree, slot_reads) == (
            BroadcastPhase::AwaitSlotFree,
            BroadcastAction::Reload,
        ),
        slot_reads == n_threads ==> spec_broadcast_step(n_threads, BroadcastPhase::AwaitSlotFree, slot_reads) == (
            BroadcastPhase::AwaitPublished,
            BroadcastAction::Publish,
        ),
        spec_broadcast_step(n_threads, BroadcastPhase::AwaitSlotFree, slot_reads).0 != BroadcastPhase::AwaitSlotFree
            <==> spec_broadcast_step(n_threads, BroadcastPhase::AwaitSlotFree, slot_reads).1 == BroadcastAction::Publish,
{
}

/// Every thread starts a broadcast waiting: the chief for a free slot,
/// every other thread for the chief's publication.
pub proof fn lemma_begin_waits(thread_id: usize)
    ensures
        thread_id == 0 <==> spec_broadcast_begin(thread_id) == BroadcastPhase::AwaitSlotFree,
        thread_id != 0 <==> spec_broadcast_begin(thread_id) == BroadcastPhase::AwaitPublished,
{
}

/// A thread waiting for the chief keeps waiting while the read count
/// equals the team size (nothing published yet), and on any other count
/// claims the value and finishes.
pub proof fn lemma_waiter_claims_once_published(n_threads: usize, slot_reads: usize)
    ensures
        slot_reads == n_threads ==> spec_broadcast_step(n_threads, BroadcastPhase::AwaitPublished, slot_reads) == (
            BroadcastPhase::AwaitPublished,
            BroadcastAction::Reload,
        ),
        slot_reads != n_threads ==> spec_broadcast_step(n_threads, BroadcastPhase::AwaitPublished, slot_reads) == (
            BroadcastPhase::Finished,
            BroadcastAction::Claim,
        ),
{
}

/// A reload changes nothing: a thread told to load again stays in the
/// phase it was in, and only a publication, a claim or a return moves it.
pub proof fn lemma_reload_keeps_phase(n_threads: usize, phase: BroadcastPhase, slot_reads: usize)
    ensures
        spec_broadcast_step(n_threads, phase, slot_reads).1 == BroadcastAction::Reload
            ==> spec_broadcast_step(n_threads, phase, slot_reads).0 == phase,
        spec_broadcast_step(n_threads, phase, slot_reads).0 != phase ==> {
            ||| spec_broadcast_step(n_threads, phase, slot_reads).1 == BroadcastAction::Publish
            ||| spec_broadcast_step(n_threads, phase, slot_reads).1 == BroadcastAction::Claim
        },
{
}

/// The slot is read only once it has been written: a thread claims only
/// after it has seen a read count below the team size, and after the claim
/// the broadcast is over for it.
pub proof fn lemma_claim_only_when_published(n_threads: usize, phase: BroadcastPhase, slot_reads: usize)
    ensures
        spec_broadcast_step(n_threads, phase, slot_reads).1 == BroadcastAction::Claim ==> {
            &&& phase == BroadcastPhase::AwaitPublished
            &&& slot_reads != n_threads
            &&& spec_broadcast_step(n_threads, phase, slot_reads).0 == BroadcastPhase::Finished
        },
{
}

/// Each thread reads the slot once per broadcast: a finished thread stays
/// finished and neither publishes nor claims again.
pub proof fn lemma_finished_is_final(n_threads: usize, slot_reads: usize)
    ensures
        spec_broadcast_step(n_threads, BroadcastPhase::Finished, slot_reads) == (
            BroadcastPhase::Finished,
            BroadcastAction::Return,
        ),
{
}

/// Only the chief writes the slot: a thread other than thread 0 starts
/// waiting for the chief, and no step takes it to waiting for a free slot.
pub proof fn lemma_only_chief_publishes(
    thread_id: usize,
    n_threads: usize,
    phase: BroadcastPhase,
    slot_reads: usize,
)
    requires
        thread_id != 0,
    ensures
        spec_broadcast_begin(thread_id) != BroadcastPhase::AwaitSlotFree,
        phase != BroadcastPhase::AwaitSlotFree ==> {
            &&& spec_broadcast_step(n_threads, phase, slot_reads).0 != BroadcastPhase::AwaitSlotFree
            &&& spec_broadcast_step(n_threads, phase, slot_reads).1 != BroadcastAction::Publish
        },
{
}

/// How far a thread of a team has come inside the action its last
/// decision asked for.
pub enum Stage {
    /// About to load the read count and decide.
    Load,
    /// About to store the value in the slot (first half of a publication).
    StoreSlot,
    /// About to store 0 in the read count (second half of a publication).
    StoreZero,
    /// About to add one to the read count (first half of a claim).
    FetchAdd,
    /// About to read the slot (second half of a claim).
    LoadSlot,
    /// Done: the thread holds its value.
    Done,
}

/// One thread of a team running a broadcast.
pub struct TeamThread {
    pub phase: BroadcastPhase,
    pub stage: Stage,
    pub got: Option<int>,
}

/// A team of threads running one broadcast of `value` through a shared slot
/// and read count, every load, store and addition taking effect at once and
/// in some order.
pub struct Team {
    pub n: usize,
    pub reads: nat,
    pub slot: int,
    pub value: int,
    pub threads: Seq<TeamThread>,
}

/// The team before the broadcast: the slot free (read count equal to the
/// team size) and holding `stale`, every thread about to load.
pub open spec fn team_init(n: usize, stale: int, value: int) -> Team {
    Team {
        n,
        reads: n as nat,
        slot: stale,
        value,
        threads: Seq::new(
            n as nat,
            |i: int| TeamThread { phase: spec_broadcast_begin(i as usize), stage: Stage::Load, got: None },
        ),
    }
}

/// The team after thread `i` takes its next step.
pub open spec fn team_step(t: Team, i: int) -> Team {
    let th = t.threads[i];
    match th.stage {
        Stage::Load => {
            let (phase, action) = spec_broadcast_step(t.n, th.phase, t.reads as usize);
            let stage = match action {
                BroadcastAction::Reload => Stage::Load,
                BroadcastAction::Publish => Stage::StoreSlot,
                BroadcastAction::Claim => Stage::FetchAdd,
                BroadcastAction::Return => Stage::Done,
            };
            Team { threads: t.threads.update(i, TeamThread { phase, stage, got: th.got }), ..t }
        },
        Stage::StoreSlot => Team {
            slot: t.value,
            threads: t.threads.update(i, TeamThread { stage: Stage::StoreZero, ..th }),
            ..t
        },
        Stage::StoreZero => Team {
            reads: 0,
            threads: t.threads.update(i, TeamThread { stage: Stage::Load, ..th }),
            ..t
        },
        Stage::FetchAdd => Team {
            reads: t.reads + 1,
            threads: t.threads.update(i, TeamThread { stage: Stage::LoadSlot, ..th }),
            ..t
        },
        Stage::LoadSlot => Team {
            threads: t.threads.update(i, TeamThread { stage: Stage::Done, got: Some(t.slot), ..th }),
            ..t
        },
        Stage::Done => t,
    }
}

/// The thread has added its one to the read count.
pub open spec fn has_claimed(th: TeamThread) -> bool {
    th.stage is LoadSlot || th.stage is Done
}

/// The number of threads of `s` that have added their one.
pub open spec fn count_claimed(s: Seq<TeamThread>) -> nat
    decreases s.len(),
{
    if s.len() == 0 {
        0
    } else {
        count_claimed(s.drop_last()) + if has_claimed(s.last()) {
            1nat
        } else {
            0nat
        }
    }
}

/// The chief has stored 0 in the read count.
pub open spec fn published(t: Team) -> bool {
    let chief = t.threads[0];
    (chief.phase is AwaitPublished && chief.stage is Load) || chief.phase is Finished
}

/// The stages a thread can be at in each phase.
pub open spec fn thread_ok(th: TeamThread, i: int, value: int) -> bool {
    &&& i != 0 ==> !(th.phase is AwaitSlotFree) && !(th.stage is StoreSlot) && !(th.stage is StoreZero)
    &&& th.phase is AwaitSlotFree ==> th.stage is Load
    &&& th.phase is AwaitPublished ==> (th.stage is Load || th.stage is StoreSlot || th.stage is StoreZero)
    &&& th.phase is Finished ==> (th.stage is FetchAdd || th.stage is LoadSlot || th.stage is Done)
    &&& th.stage is Done ==> th.got == Some(value)
}

/// What holds of a team at every point of a broadcast.
pub open spec fn team_inv(t: Team) -> bool {
    &&& 0 < t.n
    &&& t.threads.len() == t.n
    &&& forall|i: int| 0 <= i < t.n ==> #[trigger] thread_ok(t.threads[i], i, t.value)
    &&& t.threads[0].stage is StoreZero ==> t.slot == t.value
    &&& !published(t) ==> {
        &&& t.reads == t.n
        &&& forall|i: int| 0 <= i < t.n ==> !(#[trigger] t.threads[i].phase is Finished)
    }
    &&& published(t) ==> t.reads == count_claimed(t.threads) && t.slot == t.value
}

proof fn lemma_count_bounds(s: Seq<TeamThread>)
    ensures
        count_claimed(s) <= s.len(),
        count_claimed(s) == s.len() ==> forall|i: int| 0 <= i < s.len() ==> has_claimed(#[trigger] s[i]),
        (forall|i: int| 0 <= i < s.len() ==> !has_claimed(#[trigger] s[i])) ==> count_claimed(s) == 0,
    decreases s.len(),
{
    if s.len() > 0 {
        lemma_count_bounds(s.drop_last());
        assert forall|i: int| 0 <= i < s.len() - 1 implies #[trigger] s.drop_last()[i] == s[i] by {}
        if count_claimed(s) == s.len() {
            assert forall|i: int| 0 <= i < s.len() implies has_claimed(#[trigger] s[i]) by {
                if i < s.len() - 1 {
                    assert(has_claimed(s.drop_last()[i]));
                }
            }
        }
    }
}

proof fn lemma_count_update(s: Seq<TeamThread>, i: int, th: TeamThread)
    requires
        0 <= i < s.len(),
    ensures
        count_claimed(s.update(i, th)) + (if has_claimed(s[i]) { 1nat } else { 0nat }) == count_claimed(s)
            + (if has_claimed(th) { 1nat } else { 0nat }),
    decreases s.len(),
{
    if i == s.len() - 1 {
        assert(s.update(i, th).drop_last() =~= s.drop_last());
    } else {
        lemma_count_update(s.drop_last(), i, th);
        assert(s.update(i, th).drop_last() =~= s.drop_last().update(i, th));
    }
}

/// A team starts a broadcast in a state where the invariant holds.
pub proof fn lemma_team_init(n: usize, stale: int, value: int)
    requires
        0 < n,
    ensures
        team_inv(team_init(n, stale, value)),
{
    let t = team_init(n, stale, value);
    assert forall|i: int| 0 <= i < t.n implies #[trigger] thread_ok(t.threads[i], i, t.value) by {}
}

/// Every step of every thread keeps the invariant: the slot is written only
/// while it is free, a thread reads it only after the chief has published
/// and then gets the published value, and the read count counts the
/// threads that have read.
pub proof fn lemma_team_step(t: Team, i: int)
    requires
        team_inv(t),
        0 <= i < t.n,
    ensures
        team_inv(team_step(t, i)),
{
    let th = t.threads[i];
    let t2 = team_step(t, i);
    assert(thread_ok(th, i, t.value));
    assert(thread_ok(t.threads[0], 0, t.value));
    lemma_count_bounds(t.threads);
    lemma_count_update(t.threads, i, t2.threads[i]);
    if !published(t) {
        assert forall|j: int| 0 <= j < t.n implies !has_claimed(#[trigger] t.threads[j]) by {
            assert(thread_ok(t.threads[j], j, t.value));
        }
        lemma_count_bounds(t.threads);
    }
    if th.stage is Load && th.phase is AwaitPublished && published(t) && t.reads == t.n {
        assert(has_claimed(t.threads[i]));
    }
    assert forall|j: int| 0 <= j < t2.n implies #[trigger] thread_ok(t2.threads[j], j, t2.value) by {
        if j != i {
            assert(t2.threads[j] == t.threads[j]);
            assert(thread_ok(t.threads[j], j, t.value));
        }
    }
    if !published(t2) {
        assert forall|j: int| 0 <= j < t2.n implies !(#[trigger] t2.threads[j].phase is Finished) by {
            if j != i {
                assert(t2.threads[j] == t.threads[j]);
            }
        }
    }
}

/// Once every thread is done, each holds the published value and the slot
/// is free again for the next broadcast.
pub proof fn lemma_team_done(t: Team)
    requires
        team_inv(t),
        forall|i: int| 0 <= i < t.n ==> #[trigger] t.threads[i].stage is Done,
    ensures
        forall|i: int| 0 <= i < t.n ==> #[trigger] t.threads[i].got == Some(t.value),
        t.reads == t.n,
{
    assert(thread_ok(t.threads[0], 0, t.value));
    assert(t.threads[0].stage is Done);
    assert forall|i: int| 0 <= i < t.n implies #[trigger] t.threads[i].got == Some(t.value) by {
        assert(thread_ok(t.threads[i], i, t.value));
    }
    assert(published(t));
    lemma_count_all(t.threads);
}

proof fn lemma_count_all(s: Seq<TeamThread>)
    requires
        forall|i: int| 0 <= i < s.len() ==> has_claimed(#[trigger] s[i]),
    ensures
        count_claimed(s) == s.len(),
    decreases s.len(),
{
    if s.len() > 0 {
        assert forall|i: int| 0 <= i < s.len() - 1 implies has_claimed(#[trigger] s.drop_last()[i]) by {
            assert(s.drop_last()[i] == s[i]);
        }
        lemma_count_all(s.drop_last());
    }
}

/// The read count never exceeds the team size: it counts the threads that
/// have added their one, and each thread adds one at most once.
pub proof fn lemma_reads_bounded(t: Team)
    requires
        team_inv(t),
    ensures
        t.reads <= t.n,
{
    lemma_count_bounds(t.threads);
    if !published(t) {
        assert(t.reads == t.n);
    }
}

/// The team after its threads take the steps `sched`, one thread id per
/// step, in order.
pub open spec fn team_run(t: Team, sched: Seq<int>) -> Team
    decreases sched.len(),
{
    if sched.len() == 0 {
        t
    } else {
        team_step(team_run(t, sched.drop_last()), sched.last())
    }
}

/// Threads `0 .. j`, one after another, each take their three steps of a
/// claim: decide, add one to the read count, read the slot.
pub open spec fn claim_schedule(j: nat) -> Seq<int>
    decreases j,
{
    if j == 0 {
        Seq::empty()
    } else {
        claim_schedule((j - 1) as nat) + seq![j - 1, j - 1, j - 1]
    }
}

/// A whole broadcast of a team of `n`: the chief decides and publishes in
/// three steps, then every thread claims in turn.
pub open spec fn broadcast_schedule(n: nat) -> Seq<int> {
    seq![0int, 0int, 0int] + claim_schedule(n)
}

/// A thread waiting for the chief to publish.
pub open spec fn waiting_thread() -> TeamThread {
    TeamThread { phase: BroadcastPhase::AwaitPublished, stage: Stage::Load, got: None }
}

/// A thread that has read `value`.
pub open spec fn done_thread(value: int) -> TeamThread {
    TeamThread { phase: BroadcastPhase::Finished, stage: Stage::Done, got: Some(value) }
}

/// The team once the chief has published and threads `0 .. j` have read.
pub open spec fn team_after_claims(n: usize, value: int, j: nat) -> Team {
    Team {
        n,
        reads: j,
        slot: value,
        value,
        threads: Seq::new(n as nat, |i: int| if i < j { done_thread(value) } else { waiting_thread() }),
    }
}

proof fn lemma_team_run_append(t: Team, s1: Seq<int>, s2: Seq<int>)
    ensures
        team_run(t, s1 + s2) == team_run(team_run(t, s1), s2),
    decreases s2.len(),
{
    if s2.len() == 0 {
        assert(s1 + s2 =~= s1);
    } else {
        assert((s1 + s2).drop_last() =~= s1 + s2.drop_last());
        assert((s1 + s2).last() == s2.last());
        lemma_team_run_append(t, s1, s2.drop_last());
    }
}

proof fn lemma_team_run3(t: Team, i: int)
    ensures
        team_run(t, seq![i, i, i]) == team_step(team_step(team_step(t, i), i), i),
{
    assert(seq![i].drop_last() =~= Seq::<int>::empty());
    assert(team_run(t, Seq::<int>::empty()) == t);
    assert(team_run(t, seq![i]) == team_step(t, i));
    assert(seq![i, i].drop_last() =~= seq![i]);
    assert(team_run(t, seq![i, i]) == team_step(team_step(t, i), i));
    assert(seq![i, i, i].drop_last() =~= seq![i, i]);
}

proof fn lemma_chief_publishes(n: usize, stale: int, value: int)
    requires
        0 < n,
    ensures
        team_run(team_init(n, stale, value), seq![0int, 0int, 0int]) == team_after_claims(n, value, 0),
{
    let t0 = team_init(n, stale, value);
    lemma_team_run3(t0, 0);
    let t3 = team_step(team_step(team_step(t0, 0), 0), 0);
    let goal = team_after_claims(n, value, 0);
    assert(t3.threads =~= goal.threads);
}

proof fn lemma_claims(n: usize, value: int, j: nat)
    requires
        j <= n,
    ensures
        team_run(team_after_claims(n, value, 0), claim_schedule(j)) == team_after_claims(n, value, j),
    decreases j,
{
    if j == 0 {
        let t = team_after_claims(n, value, 0);
        assert(t.threads =~= team_after_claims(n, value, 0).threads);
    } else {
        let k = (j - 1) as nat;
        lemma_claims(n, value, k);
        let start = team_after_claims(n, value, 0);
        lemma_team_run_append(start, claim_schedule(k), seq![k as int, k as int, k as int]);
        let mid = team_after_claims(n, value, k);
        lemma_team_run3(mid, k as int);
        let t3 = team_step(team_step(team_step(mid, k as int), k as int), k as int);
        assert(t3.threads =~= team_after_claims(n, value, j).threads);
    }
}

/// A broadcast finishes: from the start, the chief's three steps and then
/// three steps of each thread in turn, `3 * n + 3` steps in all, leave every
/// thread done with the published value and the slot free again.
pub proof fn lemma_team_completes(n: usize, stale: int, value: int)
    requires
        0 < n,
    ensures
        broadcast_schedule(n as nat).len() == 3 * n + 3,
        ({
            let t = team_run(team_init(n, stale, value), broadcast_schedule(n as nat));
            &&& forall|i: int| 0 <= i < n ==> #[trigger] t.threads[i] == done_thread(value)
            &&& t.reads == n
            &&& t.threads.len() == n
        }),
{
    lemma_chief_publishes(n, stale, value);
    lemma_team_run_append(team_init(n, stale, value), seq![0int, 0int, 0int], claim_schedule(n as nat));
    lemma_claims(n, value, n as nat);
    lemma_claim_schedule_len(n as nat);
}

proof fn lemma_claim_schedule_len(j: nat)
    ensures
        claim_schedule(j).len() == 3 * j,
    decreases j,
{
    if j > 0 {
        lemma_claim_schedule_len((j - 1) as nat);
    }
}

/// Back-to-back broadcasts: a finished broadcast of `value` leaves the team,
/// once each thread starts its next broadcast, exactly where a fresh team
/// starts the broadcast of `next` with `value` still in the slot.
pub proof fn lemma_next_round(n: usize, value: int, next: int)
    ensures
        (Team {
            value: next,
            threads: team_init(n, value, next).threads,
            ..team_after_claims(n, value, n as nat)
        }) == team_init(n, value, next),
{
}

/// Every id of `sched` names a thread of a team of `n`.
pub open spec fn schedule_in_team(sched: Seq<int>, n: usize) -> bool {
    forall|q: int| 0 <= q < sched.len() ==> 0 <= #[trigger] sched[q] < n
}

/// A step keeps the team's size and the value being broadcast.
proof fn lemma_team_step_frame(t: Team, i: int)
    ensures
        team_step(t, i).n == t.n,
        team_step(t, i).value == t.value,
{
}

/// The invariant holds after any interleaving of steps of the team's
/// threads: whatever order the threads' loads, stores and additions take
/// effect in, the invariant of a reachable state is kept.
pub proof fn lemma_team_run_inv(t: Team, sched: Seq<int>)
    requires
        team_inv(t),
        schedule_in_team(sched, t.n),
    ensures
        team_inv(team_run(t, sched)),
        team_run(t, sched).n == t.n,
        team_run(t, sched).value == t.value,
    decreases sched.len(),
{
    if sched.len() > 0 {
        let rest = sched.drop_last();
        assert forall|q: int| 0 <= q < rest.len() implies 0 <= #[trigger] rest[q] < t.n by {
            assert(rest[q] == sched[q]);
        }
        lemma_team_run_inv(t, rest);
        let mid = team_run(t, rest);
        assert(0 <= sched[sched.len() - 1] < t.n);
        lemma_team_step(mid, sched.last());
        lemma_team_step_frame(mid, sched.last());
    }
}

/// Whatever the interleaving, a broadcast of `value` over a fresh team of
/// `n` is safe at every point: a thread that has returned holds `value`;
/// no thread gets past its wait before the chief has published `value`
/// and stored 0 in the read count; while the chief writes the slot the
/// count still says it is free and no thread has read it; the read count
/// stays within the team size; and once every thread has returned, the
/// slot is free again.
pub proof fn lemma_broadcast_run(n: usize, stale: int, value: int, sched: Seq<int>)
    requires
        0 < n,
        schedule_in_team(sched, n),
    ensures
        ({
            let t = team_run(team_init(n, stale, value), sched);
            &&& t.n == n
            &&& t.threads.len() == n
            &&& forall|i: int| 0 <= i < n && (#[trigger] t.threads[i]).stage is Done ==> t.threads[i].got == Some(value)
            &&& forall|i: int| 0 <= i < n && (#[trigger] t.threads[i]).phase is Finished ==> published(t) && t.slot == value
            &&& t.reads <= n
            &&& (forall|i: int| 0 <= i < n ==> (#[trigger] t.threads[i]).stage is Done) ==> t.reads == n
            &&& (t.threads[0].stage is StoreSlot || t.threads[0].stage is StoreZero) ==> {
                &&& t.reads == n
                &&& forall|i: int| 0 <= i < n ==> !((#[trigger] t.threads[i]).phase is Finished)
            }
        }),
{
    let t0 = team_init(n, stale, value);
    lemma_team_init(n, stale, value);
    lemma_team_run_inv(t0, sched);
    let t = team_run(t0, sched);
    lemma_reads_bounded(t);
    assert forall|i: int| 0 <= i < n && (#[trigger] t.threads[i]).stage is Done implies t.threads[i].got == Some(value) by {
        assert(thread_ok(t.threads[i], i, t.value));
    }
    if forall|i: int| 0 <= i < n ==> (#[trigger] t.threads[i]).stage is Done {
        lemma_team_done(t);
    }
    assert(thread_ok(t.threads[0], 0, t.value));
    if t.threads[0].stage is StoreSlot || t.threads[0].stage is StoreZero {
        assert(!published(t));
    }
}

/// The steps a thread still has to take in a broadcast: the chief decides,
/// stores the value and stores 0, then like every other thread decides,
/// adds one and reads the slot. A reload that finds nothing new is no step.
pub open spec fn thread_todo(th: TeamThread) -> nat {
    match th.stage {
        Stage::Load => match th.phase {
            BroadcastPhase::AwaitSlotFree => 6nat,
            BroadcastPhase::AwaitPublished => 3nat,
            BroadcastPhase::Finished => 1nat,
        },
        Stage::StoreSlot => 5nat,
        Stage::StoreZero => 4nat,
        Stage::FetchAdd => 2nat,
        Stage::LoadSlot => 1nat,
        Stage::Done => 0nat,
    }
}

/// The steps the threads of `s` still have to take, all together.
pub open spec fn team_todo(s: Seq<TeamThread>) -> nat
    decreases s.len(),
{
    if s.len() == 0 {
        0
    } else {
        team_todo(s.drop_last()) + thread_todo(s.last())
    }
}

proof fn lemma_todo_update(s: Seq<TeamThread>, i: int, th: TeamThread)
    requires
        0 <= i < s.len(),
    ensures
        team_todo(s.update(i, th)) + thread_todo(s[i]) == team_todo(s) + thread_todo(th),
    decreases s.len(),
{
    if i == s.len() - 1 {
        assert(s.update(i, th).drop_last() =~= s.drop_last());
    } else {
        lemma_todo_update(s.drop_last(), i, th);
        assert(s.update(i, th).drop_last() =~= s.drop_last().update(i, th));
    }
}

/// No steps are left exactly when every thread has returned.
pub proof fn lemma_todo_zero(s: Seq<TeamThread>)
    ensures
        team_todo(s) == 0 <==> forall|i: int| 0 <= i < s.len() ==> (#[trigger] s[i]).stage is Done,
    decreases s.len(),
{
    if s.len() > 0 {
        let d = s.drop_last();
        lemma_todo_zero(d);
        assert forall|i: int| 0 <= i < d.len() implies #[trigger] d[i] == s[i] by {}
        if forall|i: int| 0 <= i < s.len() ==> (#[trigger] s[i]).stage is Done {
            assert forall|i: int| 0 <= i < d.len() implies (#[trigger] d[i]).stage is Done by {
                assert(s[i].stage is Done);
            }
            assert(s[s.len() - 1].stage is Done);
        }
        if team_todo(s) == 0 {
            assert forall|i: int| 0 <= i < s.len() implies (#[trigger] s[i]).stage is Done by {
                if i < s.len() - 1 {
                    assert(d[i].stage is Done);
                } else {
                    assert(thread_todo(s.last()) == 0);
                }
            }
        }
    }
}

/// The threads of a fresh team of `j`.
pub open spec fn start_threads(j: nat) -> Seq<TeamThread> {
    Seq::new(j, |i: int| TeamThread { phase: spec_broadcast_begin(i as usize), stage: Stage::Load, got: None })
}

proof fn lemma_todo_start(j: nat)
    requires
        0 < j <= usize::MAX,
    ensures
        team_todo(start_threads(j)) == 3 * j + 3,
    decreases j,
{
    let s = start_threads(j);
    assert(s.last() == s[j - 1]);
    if j > 1 {
        assert(((j - 1) as usize) != 0);
        lemma_todo_start((j - 1) as nat);
        assert(s.drop_last() =~= start_threads((j - 1) as nat));
        assert(thread_todo(s.last()) == 3);
        assert(team_todo(s) == team_todo(s.drop_last()) + thread_todo(s.last()));
    } else {
        assert(s.drop_last() =~= Seq::<TeamThread>::empty());
        assert(thread_todo(s.last()) == 6);
        assert(team_todo(s) == team_todo(s.drop_last()) + thread_todo(s.last()));
    }
}

/// A fresh team of `n` has `3 * n + 3` steps to take: six for the chief,
/// three for each other thread.
pub proof fn lemma_team_init_todo(n: usize, stale: int, value: int)
    requires
        0 < n,
    ensures
        team_todo(team_init(n, stale, value).threads) == 3 * n + 3,
{
    lemma_todo_start(n as nat);
    assert(team_init(n, stale, value).threads =~= start_threads(n as nat));
}

/// Every step either changes nothing (a thread that reloads and finds
/// nothing new, or one that has returned) or takes one of the steps left.
pub proof fn lemma_team_step_todo(t: Team, i: int)
    requires
        team_inv(t),
        0 <= i < t.n,
    ensures
        team_step(t, i) == t || team_todo(team_step(t, i).threads) < team_todo(t.threads),
{
    let th = t.threads[i];
    let t2 = team_step(t, i);
    assert(thread_ok(th, i, t.value));
    lemma_todo_update(t.threads, i, t2.threads[i]);
    assert(t.threads.update(i, t2.threads[i]) == t2.threads);
    if th.stage is Load {
        let (phase, action) = spec_broadcast_step(t.n, th.phase, t.reads as usize);
        if action is Reload {
            assert(t2.threads[i] == th);
            assert(t2.threads =~= t.threads);
        }
    }
}

/// No deadlock: while some thread has not returned, some thread has a step
/// that takes one of the steps left (returned here), whatever state the
/// interleaving has reached. With the step lemma above, every schedule that
/// keeps running the threads that can move ends the broadcast within
/// `3 * n + 3` effective steps.
pub proof fn lemma_team_progress(t: Team) -> (i: int)
    requires
        team_inv(t),
        team_todo(t.threads) > 0,
    ensures
        0 <= i < t.n,
        team_todo(team_step(t, i).threads) < team_todo(t.threads),
{
    lemma_todo_zero(t.threads);
    assert(thread_ok(t.threads[0], 0, t.value));
    let i: int = if !published(t) {
        0
    } else {
        choose|j: int| 0 <= j < t.n && !((#[trigger] t.threads[j]).stage is Done)
    };
    let th = t.threads[i];
    assert(thread_ok(th, i, t.value));
    let t2 = team_step(t, i);
    lemma_todo_update(t.threads, i, t2.threads[i]);
    assert(t.threads.update(i, t2.threads[i]) == t2.threads);
    if published(t) && th.stage is Load {
        lemma_count_bounds(t.threads);
        assert(!has_claimed(th));
        assert(t.reads < t.n);
    }
    i
}

proof fn lemma_team_run_monotone(t: Team, sched: Seq<int>)
    requires
        team_inv(t),
        schedule_in_team(sched, t.n),
    ensures
        team_run(t, sched) == t || team_todo(team_run(t, sched).threads) < team_todo(t.threads),
    decreases sched.len(),
{
    if sched.len() > 0 {
        let rest = sched.drop_last();
        assert forall|q: int| 0 <= q < rest.len() implies 0 <= #[trigger] rest[q] < t.n by {
            assert(rest[q] == sched[q]);
        }
        lemma_team_run_monotone(t, rest);
        lemma_team_run_inv(t, rest);
        assert(0 <= sched[sched.len() - 1] < t.n);
        lemma_team_step_todo(team_run(t, rest), sched.last());
    }
}

/// Every thread of a team of `n` has at least one step in `sweep`.
pub open spec fn sweep_covers(sweep: Seq<int>, n: usize) -> bool {
    &&& schedule_in_team(sweep, n)
    &&& forall|i: int| 0 <= i < n ==> #[trigger] sweep.contains(i)
}

/// The schedule made of the sweeps of `sweeps`, one after another.
pub open spec fn sweeps_schedule(sweeps: Seq<Seq<int>>) -> Seq<int>
    decreases sweeps.len(),
{
    if sweeps.len() == 0 {
        Seq::empty()
    } else {
        sweeps_schedule(sweeps.drop_last()) + sweeps.last()
    }
}

/// A sweep in which every thread steps at least once takes at least one of
/// the steps left, whatever the order of its steps.
proof fn lemma_sweep_progress(t: Team, sweep: Seq<int>)
    requires
        team_inv(t),
        sweep_covers(sweep, t.n),
        team_todo(t.threads) > 0,
    ensures
        team_todo(team_run(t, sweep).threads) < team_todo(t.threads),
{
    let i = lemma_team_progress(t);
    assert(sweep.contains(i));
    let q = choose|q: int| 0 <= q < sweep.len() && sweep[q] == i;
    let pre = sweep.subrange(0, q);
    let post = sweep.subrange(q + 1, sweep.len() as int);
    assert(sweep =~= pre + seq![i] + post);
    assert forall|r: int| 0 <= r < pre.len() implies 0 <= #[trigger] pre[r] < t.n by {
        assert(pre[r] == sweep[r]);
    }
    assert forall|r: int| 0 <= r < post.len() implies 0 <= #[trigger] post[r] < t.n by {
        assert(post[r] == sweep[q + 1 + r]);
    }
    lemma_team_run_append(t, pre + seq![i], post);
    lemma_team_run_append(t, pre, seq![i]);
    lemma_team_run_monotone(t, pre);
    lemma_team_run_inv(t, pre);
    let m1 = team_run(t, pre);
    assert(seq![i].drop_last() =~= Seq::<int>::empty());
    assert(team_run(m1, Seq::<int>::empty()) == m1);
    assert(seq![i].last() == i);
    assert(team_run(m1, seq![i]) == team_step(m1, i));
    lemma_team_step_todo(m1, i);
    lemma_team_step(m1, i);
    lemma_team_step_frame(m1, i);
    let m2 = team_step(m1, i);
    lemma_team_run_monotone(m2, post);
}

proof fn lemma_sweeps_todo(t: Team, sweeps: Seq<Seq<int>>)
    requires
        team_inv(t),
        forall|j: int| 0 <= j < sweeps.len() ==> sweep_covers(#[trigger] sweeps[j], t.n),
    ensures
        schedule_in_team(sweeps_schedule(sweeps), t.n),
        team_inv(team_run(t, sweeps_schedule(sweeps))),
        team_todo(team_run(t, sweeps_schedule(sweeps)).threads) == 0 || team_todo(
            team_run(t, sweeps_schedule(sweeps)).threads,
        ) + sweeps.len() <= team_todo(t.threads),
    decreases sweeps.len(),
{
    if sweeps.len() > 0 {
        let prev = sweeps.drop_last();
        assert forall|j: int| 0 <= j < prev.len() implies sweep_covers(#[trigger] prev[j], t.n) by {
            assert(prev[j] == sweeps[j]);
        }
        lemma_sweeps_todo(t, prev);
        let s1 = sweeps_schedule(prev);
        let last = sweeps.last();
        assert(sweep_covers(sweeps[sweeps.len() - 1], t.n));
        let all = sweeps_schedule(sweeps);
        assert(all == s1 + last);
        assert forall|q: int| 0 <= q < all.len() implies 0 <= #[trigger] all[q] < t.n by {
            if q < s1.len() {
                assert(all[q] == s1[q]);
            } else {
                assert(all[q] == last[q - s1.len()]);
            }
        }
        lemma_team_run_append(t, s1, last);
        lemma_team_run_inv(t, s1);
        let mid = team_run(t, s1);
        lemma_team_run_inv(mid, last);
        if team_todo(mid.threads) > 0 {
            lemma_sweep_progress(mid, last);
        } else {
            lemma_team_run_monotone(mid, last);
        }
    }
}

/// Every fair schedule completes the broadcast: once the threads have
/// taken `3 * n + 3` sweeps, each of which steps every thread at least once
/// in any order, every thread has returned with the chief's value and the
/// slot is free again.
pub proof fn lemma_broadcast_completes(n: usize, stale: int, value: int, sweeps: Seq<Seq<int>>)
    requires
        0 < n,
        sweeps.len() >= 3 * n + 3,
        forall|j: int| 0 <= j < sweeps.len() ==> sweep_covers(#[trigger] sweeps[j], n),
    ensures
        ({
            let t = team_run(team_init(n, stale, value), sweeps_schedule(sweeps));
            &&& t.threads.len() == n
            &&& forall|i: int| 0 <= i < n ==> (#[trigger] t.threads[i]).stage is Done && t.threads[i].got == Some(value)
            &&& t.reads == n
        }),
{
    let t0 = team_init(n, stale, value);
    lemma_team_init(n, stale, value);
    lemma_team_init_todo(n, stale, value);
    lemma_sweeps_todo(t0, sweeps);
    let sched = sweeps_schedule(sweeps);
    lemma_team_run_inv(t0, sched);
    let t = team_run(t0, sched);
    lemma_todo_zero(t.threads);
    lemma_team_done(t);
}

/// Splitting a team into sub-teams of `n_way` gives every thread its own
/// place: no two threads get the same sub-team and id, and every sub-team
/// number indexes one of the `n_threads / n_way` sub-teams.
pub proof fn lemma_split_places_distinct(n_threads: int, n_way: int, i1: int, i2: int)
    requires
        0 < n_way,
        n_threads % n_way == 0,
        0 <= i1 < n_threads,
        0 <= i2 < n_threads,
        i1 / n_way == i2 / n_way,
        i1 % n_way == i2 % n_way,
    ensures
        i1 == i2,
        i1 / n_way < n_threads / n_way,
{
    crate::layout::lemma_panel_inj(i1, i2, n_way);
    vstd::arithmetic::div_mod::lemma_fundamental_div_mod(i1, n_way);
    vstd::arithmetic::div_mod::lemma_fundamental_div_mod(n_threads, n_way);
    vstd::arithmetic::div_mod::lemma_mod_pos_bound(i1, n_way);
    let q = i1 / n_way;
    let r = i1 % n_way;
    let qn = n_threads / n_way;
    assert(q < qn) by (nonlinear_arith)
        requires
            i1 < n_threads,
            i1 == n_way * q + r,
            n_threads == n_way * qn,
            0 <= r,
            0 < n_way,
    ;
}

} // verus!
