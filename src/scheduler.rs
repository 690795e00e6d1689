use vstd::prelude::*;

verus! {

/// How many wake-ups may wait in the queue at once.
pub const MAX_QUEUED_TASKS: usize = 10000;

/// The scheduler's state: the queue of units waiting to be polled, front
/// first; which units have not finished; how often each unit was polled.
pub struct SchedState {
    pub queue: Seq<nat>,
    pub live: Seq<bool>,
    pub polls: Seq<nat>,
}

/// What the worker loop does next.
pub enum Next {
    /// Poll this unit, then report with `finish`.
    Poll(usize),
    /// Nothing is queued but some unit has not finished: wait for a wake-up.
    Wait,
    /// Every unit has finished.
    Done,
}

/// The position of the first unit of `q` that has not finished, or -1.
pub open spec fn first_live(q: Seq<nat>, live: Seq<bool>) -> int
    decreases q.len(),
{
    if q.len() == 0 {
        -1
    } else if q[0] < live.len() && live[q[0] as int] {
        0
    } else {
        let r = first_live(q.drop_first(), live);
        if r < 0 {
            -1
        } else {
            r + 1
        }
    }
}

pub open spec fn any_live(live: Seq<bool>) -> bool {
    exists|u: int| 0 <= u < live.len() && live[u]
}

pub open spec fn spawn_spec(s: SchedState) -> SchedState {
    SchedState {
        queue: s.queue.push(s.live.len()),
        live: s.live.push(true),
        polls: s.polls.push(0),
    }
}

pub open spec fn wake_spec(s: SchedState, u: nat) -> SchedState {
    SchedState { queue: s.queue.push(u), ..s }
}

/// The queue's front is taken off until a unit that has not finished comes,
/// which is polled; units that finished are dropped on the way.
pub open spec fn next_spec(s: SchedState) -> (SchedState, Option<nat>, bool) {
    let k = first_live(s.queue, s.live);
    if k >= 0 {
        let u = s.queue[k];
        (
            SchedState {
                queue: s.queue.skip(k + 1),
                polls: s.polls.update(u as int, s.polls[u as int] + 1),
                ..s
            },
            Some(u),
            false,
        )
    } else {
        (SchedState { queue: seq![], ..s }, None, !any_live(s.live))
    }
}

pub open spec fn finish_spec(s: SchedState, u: nat, ready: bool) -> SchedState {
    if ready {
        SchedState { live: s.live.update(u as int, false), ..s }
    } else {
        s
    }
}

/// The decisions of a single-queue executor driven by wake-ups: units are
/// spawned, woken and polled by number, and the caller polls the work itself.
pub struct Scheduler {
    pub queue: Vec<usize>,
    pub live: Vec<bool>,
    pub polls: Ghost<Seq<nat>>,
}

impl Scheduler {
    pub open spec fn view(&self) -> SchedState {
        SchedState {
            queue: Seq::new(self.queue@.len(), |i: int| self.queue@[i] as nat),
            live: self.live@,
            polls: self.polls@,
        }
    }

    pub open spec fn wf(&self) -> bool {
        &&& self@.polls.len() == self@.live.len()
        &&& forall|i: int| 0 <= i < self@.queue.len() ==> #[trigger] self@.queue[i] < self@.live.len()
    }

    pub fn new() -> (r: Self)
        ensures
            r.wf(),
            r@ == (SchedState { queue: seq![], live: seq![], polls: seq![] }),
    {
        let r = Scheduler { queue: Vec::new(), live: Vec::new(), polls: Ghost(Seq::empty()) };
        assert(r@.queue =~= Seq::<nat>::empty());
        r
    }

    /// The number of units spawned.
    pub fn len(&self) -> (r: usize)
        ensures
            r == self@.live.len(),
    {
        self.live.len()
    }

    /// Whether unit `u` has not finished.
    pub fn is_live(&self, u: usize) -> (r: bool)
        requires
            u < self@.live.len(),
        ensures
            r == self@.live[u as int],
    {
        self.live[u]
    }

    /// Adds a unit and queues it once; `None` where the queue is full.
    pub fn spawn(&mut self) -> (r: Option<usize>)
        requires
            old(self).wf(),
        ensures
            final(self).wf(),
            r is None <==> old(self)@.queue.len() >= MAX_QUEUED_TASKS || old(self)@.live.len()
                >= usize::MAX,
            r is None ==> final(self)@ == old(self)@,
            r matches Some(u) ==> u == old(self)@.live.len() && final(self)@ == spawn_spec(
                old(self)@,
            ),
    {
        if self.queue.len() >= MAX_QUEUED_TASKS || self.live.len() == usize::MAX {
            return None;
        }
        let u = self.live.len();
        let ghost before = self@;
        self.live.push(true);
        self.queue.push(u);
        self.polls = Ghost(self.polls@.push(0));
        assert(self@.queue =~= before.queue.push(u as nat));
        Some(u)
    }

    /// Queues unit `u` again; `false` where the queue is full.
    pub fn wake(&mut self, u: usize) -> (r: bool)
        requires
            old(self).wf(),
            u < old(self)@.live.len(),
        ensures
            final(self).wf(),
            r == (old(self)@.queue.len() < MAX_QUEUED_TASKS),
            r ==> final(self)@ == wake_spec(old(self)@, u as nat),
            !r ==> final(self)@ == old(self)@,
    {
        if self.queue.len() >= MAX_QUEUED_TASKS {
            return false;
        }
        let ghost before = self@;
        self.queue.push(u);
        assert(self@.queue =~= before.queue.push(u as nat));
        true
    }

    /// The next thing for the worker loop to do.
    pub fn next(&mut self) -> (r: Next)
        requires
            old(self).wf(),
        ensures
            final(self).wf(),
            final(self)@ == next_spec(old(self)@).0,
            match r {
                Next::Poll(u) => next_spec(old(self)@).1 == Some(u as nat),
                Next::Wait => next_spec(old(self)@).1 is None && !next_spec(old(self)@).2,
                Next::Done => next_spec(old(self)@).1 is None && next_spec(old(self)@).2,
            },
            r is Done ==> forall|u: int| 0 <= u < old(self)@.live.len() ==> !old(self)@.live[u],
    {
        let ghost s0 = self@;
        let n0 = self.queue.len();
        let mut k: usize = 0;
        while self.queue.len() > 0
            invariant
                self.wf(),
                s0 == old(self)@,
                s0.queue.len() == n0,
                self@.live == s0.live,
                self@.polls == s0.polls,
                k <= s0.queue.len(),
                self@.queue == s0.queue.skip(k as int),
                first_live(s0.queue, s0.live) == if first_live(self@.queue, s0.live) < 0 {
                    -1
                } else {
                    first_live(self@.queue, s0.live) + k
                },
            decreases self.queue@.len(),
        {
            let ghost q = self@.queue;
            let u = self.queue.remove(0);
            assert(self@.queue =~= q.drop_first());
            assert(q[0] == u as nat);
            assert(s0.queue.skip(k + 1) =~= q.drop_first());
            if self.live[u] {
                self.polls = Ghost(self.polls@.update(u as int, self.polls@[u as int] + 1));
                proof {
                    assert(first_live(q, s0.live) == 0);
                    assert(self@.queue =~= s0.queue.skip(k + 1));
                    assert(s0.queue[k as int] == u as nat);
                    let t = next_spec(s0).0;
                    assert(self@.queue =~= t.queue);
                    assert(self@.polls =~= t.polls);
                    assert(self@.live =~= t.live);
                }
                return Next::Poll(u);
            }
            k = k + 1;
        }
        assert(self@.queue =~= Seq::<nat>::empty());
        assert(first_live(self@.queue, s0.live) == -1);
        assert(first_live(s0.queue, s0.live) == -1);
        assert(self@ == next_spec(s0).0);
        let ghost s1 = self@;
        let mut i: usize = 0;
        while i < self.live.len()
            invariant
                self.wf(),
                self@ == s1,
                s0 == old(self)@,
                s1 == next_spec(s0).0,
                s1.live == s0.live,
                first_live(s0.queue, s0.live) == -1,
                i <= self.live@.len(),
                forall|j: int| 0 <= j < i ==> !self.live@[j],
            decreases self.live@.len() - i,
        {
            if self.live[i] {
                assert(s0.live[i as int]);
                assert(any_live(s0.live));
                return Next::Wait;
            }
            i = i + 1;
        }
        Next::Done
    }

    /// Records the outcome of polling unit `u`: finished, or not yet.
    pub fn finish(&mut self, u: usize, ready: bool)
        requires
            old(self).wf(),
            u < old(self)@.live.len(),
        ensures
            final(self).wf(),
            final(self)@ == finish_spec(old(self)@, u as nat, ready),
    {
        let ghost before = self@;
        if ready {
            self.live.set(u, false);
            assert(self@.live =~= before.live.update(u as int, false));
            assert(self@.queue =~= before.queue);
        }
    }
}

/// The state after `n` units were spawned on a new scheduler.
pub open spec fn spawned(n: nat) -> SchedState
    decreases n,
{
    if n == 0 {
        SchedState { queue: seq![], live: seq![], polls: seq![] }
    } else {
        spawn_spec(spawned((n - 1) as nat))
    }
}

/// Runs the worker loop on units where unit `u` reports "not finished", and
/// wakes itself, on its first `scripts[u]` polls and finishes on the next.
/// Gives the state, and whether the loop came to `Done`.
pub open spec fn drive(s: SchedState, scripts: Seq<nat>, fuel: nat) -> (SchedState, bool)
    decreases fuel,
{
    if fuel == 0 {
        (s, false)
    } else {
        let (s1, polled, done) = next_spec(s);
        match polled {
            Some(u) => {
                let s2 = if s1.polls[u as int] <= scripts[u as int] {
                    wake_spec(finish_spec(s1, u, false), u)
                } else {
                    finish_spec(s1, u, true)
                };
                drive(s2, scripts, (fuel - 1) as nat)
            },
            None => (s1, done),
        }
    }
}

/// The polls still owed to the units below `n`.
pub open spec fn owed(scripts: Seq<nat>, polls: Seq<nat>, n: nat) -> int
    decreases n,
{
    if n == 0 {
        0
    } else {
        owed(scripts, polls, (n - 1) as nat) + (scripts[n - 1] + 1 - polls[n - 1])
    }
}

pub open spec fn total(scripts: Seq<nat>, n: nat) -> nat
    decreases n,
{
    if n == 0 {
        0
    } else {
        total(scripts, (n - 1) as nat) + scripts[n - 1] + 1
    }
}

/// While the loop runs such units, each unit that has not finished waits in
/// the queue exactly once, and has been polled no more than its script says.
pub open spec fn run_inv(s: SchedState, scripts: Seq<nat>) -> bool {
    &&& s.live.len() == scripts.len()
    &&& s.polls.len() == scripts.len()
    &&& s.queue.no_duplicates()
    &&& forall|i: int| 0 <= i < s.queue.len() ==> #[trigger] s.queue[i] < s.live.len() && s.live[s.queue[i] as int]
    &&& forall|u: int| 0 <= u < s.live.len() && s.live[u] ==> #[trigger] s.queue.contains(u as nat)
    &&& forall|u: int| 0 <= u < s.live.len() ==> if s.live[u] {
        s.polls[u] <= scripts[u]
    } else {
        s.polls[u] == scripts[u] + 1
    }
}

proof fn lemma_owed_step(scripts: Seq<nat>, polls: Seq<nat>, n: nat, u: int)
    requires
        0 <= u < n <= polls.len(),
        n <= scripts.len(),
        polls[u] <= scripts[u],
    ensures
        owed(scripts, polls.update(u, polls[u] + 1), n) + 1 == owed(scripts, polls, n),
    decreases n,
{
    if u < n - 1 {
        lemma_owed_step(scripts, polls, (n - 1) as nat, u);
    } else {
        lemma_owed_same(scripts, polls, polls.update(u, polls[u] + 1), (n - 1) as nat);
    }
}

proof fn lemma_owed_same(scripts: Seq<nat>, left: Seq<nat>, right: Seq<nat>, n: nat)
    requires
        n <= left.len(),
        n <= right.len(),
        forall|i: int| 0 <= i < n ==> left[i] == right[i],
    ensures
        owed(scripts, left, n) == owed(scripts, right, n),
    decreases n,
{
    if n > 0 {
        lemma_owed_same(scripts, left, right, (n - 1) as nat);
    }
}

proof fn lemma_owed_bound(scripts: Seq<nat>, polls: Seq<nat>, n: nat)
    requires
        n <= polls.len(),
        n <= scripts.len(),
        forall|u: int| 0 <= u < n ==> polls[u] <= scripts[u] + 1,
    ensures
        0 <= owed(scripts, polls, n) <= total(scripts, n),
    decreases n,
{
    if n > 0 {
        lemma_owed_bound(scripts, polls, (n - 1) as nat);
    }
}

proof fn lemma_first_live_front(q: Seq<nat>, live: Seq<bool>)
    requires
        q.len() > 0,
        q[0] < live.len(),
        live[q[0] as int],
    ensures
        first_live(q, live) == 0,
{
}

proof fn lemma_first_live_none(q: Seq<nat>, live: Seq<bool>)
    requires
        q.len() == 0,
    ensures
        first_live(q, live) == -1,
{
}

proof fn lemma_drive(s: SchedState, scripts: Seq<nat>, fuel: nat)
    requires
        run_inv(s, scripts),
        fuel > owed(scripts, s.polls, scripts.len()),
    ensures
        drive(s, scripts, fuel).1,
        run_inv(drive(s, scripts, fuel).0, scripts),
        forall|u: int| 0 <= u < scripts.len() ==> !drive(s, scripts, fuel).0.live[u],
    decreases fuel,
{
    let n = scripts.len();
    lemma_owed_bound(scripts, s.polls, n);
    if s.queue.len() == 0 {
        lemma_first_live_none(s.queue, s.live);
        assert forall|u: int| 0 <= u < n implies !s.live[u] by {
            if s.live[u] {
                assert(s.queue.contains(u as nat));
            }
        }
        assert(!any_live(s.live));
        let r = next_spec(s);
        assert(r.0.queue =~= s.queue);
        assert(r.0 == s);
        assert(drive(s, scripts, fuel) == (r.0, r.2));
    } else {
        let u = s.queue[0];
        lemma_first_live_front(s.queue, s.live);
        let (s1, polled, done) = next_spec(s);
        assert(polled == Some(u));
        assert(s.polls[u as int] <= scripts[u as int]);
        lemma_owed_step(scripts, s.polls, n, u as int);
        let q1 = s.queue.skip(1);
        assert(s1.queue == q1);
        assert(!q1.contains(u)) by {
            if q1.contains(u) {
                let j = choose|j: int| 0 <= j < q1.len() && q1[j] == u;
                assert(s.queue[j + 1] == s.queue[0]);
            }
        }
        let s2 = if s1.polls[u as int] <= scripts[u as int] {
            wake_spec(finish_spec(s1, u, false), u)
        } else {
            finish_spec(s1, u, true)
        };
        assert(s2.polls == s1.polls);
        assert(run_inv(s2, scripts)) by {
            assert forall|i: int| 0 <= i < q1.len() implies #[trigger] q1[i] == s.queue[i + 1] by {}
            if s1.polls[u as int] <= scripts[u as int] {
                assert(s2.queue == q1.push(u));
                assert(s2.queue.no_duplicates()) by {
                    assert forall|a: int, b: int| 0 <= a < b < s2.queue.len() implies s2.queue[a] != s2.queue[b] by {
                        if b == q1.len() {
                            assert(q1[a] == s.queue[a + 1]);
                            assert(s.queue[a + 1] != s.queue[0]);
                        } else {
                            assert(s.queue[a + 1] != s.queue[b + 1]);
                        }
                    }
                }
                assert forall|i: int| 0 <= i < s2.queue.len() implies #[trigger] s2.queue[i] < s2.live.len() && s2.live[s2.queue[i] as int] by {
                    if i < q1.len() {
                        assert(s2.queue[i] == s.queue[i + 1]);
                    }
                }
                assert forall|v: int| 0 <= v < s2.live.len() && s2.live[v] implies #[trigger] s2.queue.contains(v as nat) by {
                    if v as nat == u {
                        assert(s2.queue[q1.len() as int] == u);
                    } else {
                        assert(s.queue.contains(v as nat));
                        let j = choose|j: int| 0 <= j < s.queue.len() && s.queue[j] == v as nat;
                        assert(j != 0);
                        assert(s2.queue[j - 1] == v as nat);
                    }
                }
            } else {
                assert(s2.queue == q1);
                assert(s2.queue.no_duplicates()) by {
                    assert forall|a: int, b: int| 0 <= a < b < s2.queue.len() implies s2.queue[a] != s2.queue[b] by {
                        assert(s.queue[a + 1] != s.queue[b + 1]);
                    }
                }
                assert forall|i: int| 0 <= i < s2.queue.len() implies #[trigger] s2.queue[i] < s2.live.len() && s2.live[s2.queue[i] as int] by {
                    assert(s2.queue[i] == s.queue[i + 1]);
                    assert(s.queue[i + 1] != s.queue[0]);
                }
                assert forall|v: int| 0 <= v < s2.live.len() && s2.live[v] implies #[trigger] s2.queue.contains(v as nat) by {
                    assert(s.queue.contains(v as nat));
                    let j = choose|j: int| 0 <= j < s.queue.len() && s.queue[j] == v as nat;
                    assert(j != 0);
                    assert(s2.queue[j - 1] == v as nat);
                }
            }
        }
        assert(drive(s, scripts, fuel) == drive(s2, scripts, (fuel - 1) as nat));
        lemma_drive(s2, scripts, (fuel - 1) as nat);
    }
}

proof fn lemma_spawned(n: nat)
    ensures
        spawned(n).live.len() == n,
        spawned(n).polls.len() == n,
        spawned(n).queue.len() == n,
        forall|i: int| 0 <= i < n ==> #[trigger] spawned(n).queue[i] == i && spawned(n).live[i]
            && spawned(n).polls[i] == 0,
    decreases n,
{
    if n > 0 {
        lemma_spawned((n - 1) as nat);
    }
}

/// Units spawned on a new scheduler, each of which reports "not finished"
/// (waking itself) a fixed number of times and then finishes, are all run to
/// the end: the worker loop comes to `Done` only after every unit finished,
/// and each unit was polled once more than it reported "not finished"; so a
/// unit that reports it once is polled exactly twice.
pub proof fn lemma_run_to_completion(scripts: Seq<nat>)
    ensures
        drive(spawned(scripts.len()), scripts, total(scripts, scripts.len()) + 1).1,
        forall|u: int|
            0 <= u < scripts.len() ==> !drive(
                spawned(scripts.len()),
                scripts,
                total(scripts, scripts.len()) + 1,
            ).0.live[u] && #[trigger] drive(
                spawned(scripts.len()),
                scripts,
                total(scripts, scripts.len()) + 1,
            ).0.polls[u] == scripts[u] + 1,
{
    let n = scripts.len();
    let s = spawned(n);
    lemma_spawned(n);
    assert(run_inv(s, scripts)) by {
        assert forall|a: int, b: int| 0 <= a < b < s.queue.len() implies s.queue[a] != s.queue[b] by {
            assert(s.queue[a] == a);
            assert(s.queue[b] == b);
        }
        assert forall|i: int| 0 <= i < s.queue.len() implies #[trigger] s.queue[i] < s.live.len() && s.live[s.queue[i] as int] by {
            assert(s.queue[i] == i);
        }
        assert forall|u: int| 0 <= u < s.live.len() && s.live[u] implies #[trigger] s.queue.contains(u as nat) by {
            assert(s.queue[u] == u);
        }
        assert forall|u: int| 0 <= u < s.live.len() implies if s.live[u] {
            s.polls[u] <= scripts[u]
        } else {
            s.polls[u] == scripts[u] + 1
        } by {
            assert(s.queue[u] == u);
            assert(s.live[u] && s.polls[u] == 0);
        }
    }
    lemma_owed_bound(scripts, s.polls, n);
    lemma_drive(s, scripts, total(scripts, n) + 1);
}

} // verus!
