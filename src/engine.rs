//! The rollback engine: confirmed and predicted inputs, per-frame snapshots,
//! and re-simulation when a late input differs from its prediction.

use vstd::prelude::*;
use crate::codec::{zero_packet, Packet};
use crate::sim::{step_spec, world_wf, Config, World, WorldView};

verus! {

/// Why the engine refused a call.
#[derive(Clone, Copy, Debug, PartialEq, Eq, Structural)]
pub enum EngineError {
    /// The handle is not one of the session's remote players.
    NotRemote,
    /// An input arrived for a frame after one whose input is still missing.
    OutOfOrder,
    /// An input for a frame differs from the one already received for it.
    Conflict,
    /// An input arrived again for a frame whose inputs were already dropped.
    Retired,
    /// Some remote player lags too many frames behind to predict further.
    PredictionThreshold,
    /// The session has run out of representable frame numbers.
    FrameLimit,
}

/// The input that stands for a player at frame `f`, given the inputs received
/// from it so far: the actual one when it is known, otherwise a repeat of its
/// latest input, or the empty packet before any has arrived.
pub open spec fn effective(got: Seq<Packet>, f: int) -> Packet {
    if f < got.len() {
        got[f]
    } else if got.len() > 0 {
        got.last()
    } else {
        zero_packet()
    }
}

/// The inputs of every handle at frame `f`.
pub open spec fn frame_inputs(received: Seq<Seq<Packet>>, f: int) -> Seq<Packet> {
    Seq::new(received.len(), |h: int| effective(received[h], f))
}

/// The state after `n` frames from `start`, every frame using the inputs that
/// `received` gives for it.
pub open spec fn run(cfg: Config, start: WorldView, received: Seq<Seq<Packet>>, n: nat) -> WorldView
    decreases n,
{
    if n == 0 {
        start
    } else {
        step_spec(cfg, run(cfg, start, received, (n - 1) as nat), frame_inputs(received, n - 1))
    }
}

/// Receiving one more input, equal to what was being predicted for its frame,
/// changes no frame's input.
pub proof fn lemma_matching_input_changes_nothing(got: Seq<Packet>, x: Packet, f: int)
    requires
        x == effective(got, got.len() as int),
        0 <= f,
    ensures
        effective(got.push(x), f) == effective(got, f),
{
    if f < got.len() {
        assert(got.push(x)[f] == got[f]);
    }
}

/// Receiving one more input changes no input of an earlier frame.
pub proof fn lemma_push_keeps_earlier(got: Seq<Packet>, x: Packet, f: int)
    requires
        0 <= f < got.len(),
    ensures
        effective(got.push(x), f) == effective(got, f),
{
    assert(got.push(x)[f] == got[f]);
}

pub open spec fn inputs_view(received: Seq<Vec<Packet>>) -> Seq<Seq<Packet>> {
    received.map_values(|v: Vec<Packet>| v@)
}

/// Every snapshot is well formed, and each follows from the one before it by
/// one step with that frame's inputs.
/// Snapshot `k` is the state at frame `base + k`.
pub open spec fn snaps_ok(cfg: Config, snaps: Seq<World>, inputs: Seq<Seq<Packet>>, base: int) -> bool {
    &&& forall|k: int| 0 <= k < snaps.len() ==> world_wf(cfg, #[trigger] snaps[k]@)
    &&& forall|k: int|
        0 <= k < snaps.len() - 1 ==> #[trigger] snaps[k + 1]@ == step_spec(
            cfg,
            snaps[k]@,
            frame_inputs(inputs, base + k),
        )
}

/// Runs that use the same inputs for their first `n` frames agree there.
proof fn lemma_run_agrees(
    cfg: Config,
    start: WorldView,
    a: Seq<Seq<Packet>>,
    b: Seq<Seq<Packet>>,
    n: nat,
)
    requires
        a.len() == b.len(),
        forall|h: int, k: int|
            0 <= h < a.len() && 0 <= k < n ==> #[trigger] effective(b[h], k) == effective(a[h], k),
    ensures
        run(cfg, start, a, n) == run(cfg, start, b, n),
    decreases n,
{
    if n > 0 {
        lemma_run_agrees(cfg, start, a, b, (n - 1) as nat);
        assert(frame_inputs(a, n - 1) =~= frame_inputs(b, n - 1));
    }
}

proof fn lemma_snaps_transfer(
    cfg: Config,
    snaps: Seq<World>,
    a: Seq<Seq<Packet>>,
    b: Seq<Seq<Packet>>,
    base: int,
)
    requires
        snaps_ok(cfg, snaps, a, base),
        0 <= base,
        a.len() == b.len(),
        forall|h: int, k: int|
            0 <= h < a.len() && 0 <= k < base + snaps.len() - 1 ==> #[trigger] effective(b[h], k)
                == effective(a[h], k),
    ensures
        snaps_ok(cfg, snaps, b, base),
{
    assert forall|k: int| 0 <= k < snaps.len() - 1 implies #[trigger] frame_inputs(b, base + k)
        == frame_inputs(a, base + k) by {
        assert(frame_inputs(b, base + k) =~= frame_inputs(a, base + k));
    }
    assert forall|k: int| 0 <= k < snaps.len() - 1 implies #[trigger] snaps[k + 1]@ == step_spec(
        cfg,
        snaps[k]@,
        frame_inputs(b, base + k),
    ) by {
        assert(frame_inputs(b, base + k) == frame_inputs(a, base + k));
    }
}

/// Receiving input `x` from handle `h` changes the inputs of no frame before
/// `n`, when `n` is at most the number of inputs `h` had, or when `x` is what
/// was being predicted.
proof fn lemma_push_agrees(a: Seq<Seq<Packet>>, h: int, x: Packet, n: int)
    requires
        0 <= h < a.len(),
        n <= a[h].len() || x == effective(a[h], a[h].len() as int),
    ensures
        forall|g: int, k: int|
            0 <= g < a.len() && 0 <= k < n ==> #[trigger] effective(
                a.update(h, a[h].push(x))[g],
                k,
            ) == effective(a[g], k),
{
    assert forall|g: int, k: int| 0 <= g < a.len() && 0 <= k < n implies #[trigger] effective(
        a.update(h, a[h].push(x))[g],
        k,
    ) == effective(a[g], k) by {
        if g == h {
            if x == effective(a[h], a[h].len() as int) {
                lemma_matching_input_changes_nothing(a[h], x, k);
            } else {
                lemma_push_keeps_earlier(a[h], x, k);
            }
        }
    }
}

/// The inputs received from every handle. Inputs of frames before
/// `trimmed` are dropped, except that each handle keeps its latest input,
/// which prediction repeats; `full` is the whole history, for contracts.
pub struct InputLog {
    rows: Vec<Vec<Packet>>,
    trimmed: usize,
    full: Ghost<Seq<Seq<Packet>>>,
}

impl InputLog {
    pub closed spec fn view(&self) -> Seq<Seq<Packet>> {
        self.full@
    }

    /// The first frame whose input is still held.
    pub closed spec fn first_kept(&self) -> nat {
        self.trimmed as nat
    }

    pub closed spec fn wf(&self) -> bool {
        &&& self.rows@.len() == self.full@.len()
        &&& forall|h: int|
            0 <= h < self.full@.len() ==> {
                &&& #[trigger] self.full@[h].len() <= usize::MAX
                &&& self.trimmed == 0 || self.trimmed < self.full@[h].len()
                &&& self.rows@[h]@ == self.full@[h].subrange(self.trimmed as int, self.full@[h].len() as int)
            }
    }

    /// A log holding `rows` in full.
    fn from_rows(rows: Vec<Vec<Packet>>) -> (r: InputLog)
        requires
            forall|h: int| 0 <= h < rows@.len() ==> #[trigger] rows@[h]@.len() <= usize::MAX,
        ensures
            r.wf(),
            r@ == inputs_view(rows@),
            r.first_kept() == 0,
    {
        let ghost full = inputs_view(rows@);
        let r = InputLog { rows, trimmed: 0, full: Ghost(full) };
        assert forall|h: int| 0 <= h < r.full@.len() implies {
            &&& #[trigger] r.full@[h].len() <= usize::MAX
            &&& r.trimmed == 0 || r.trimmed < r.full@[h].len()
            &&& r.rows@[h]@ == r.full@[h].subrange(r.trimmed as int, r.full@[h].len() as int)
        } by {
            assert(r.full@[h] == rows@[h]@);
            assert(r.rows@[h]@ =~= r.full@[h].subrange(0, r.full@[h].len() as int));
        }
        r
    }

    fn handles(&self) -> (r: usize)
        requires
            self.wf(),
        ensures
            r == self@.len(),
    {
        self.rows.len()
    }

    /// The number of inputs received from handle `h`.
    fn count(&self, h: usize) -> (r: usize)
        requires
            self.wf(),
            h < self@.len(),
        ensures
            r == self@[h as int].len(),
    {
        assert(self.rows@[h as int]@.len() == self.full@[h as int].len() - self.trimmed || self.full@[
            h as int].len() == 0);
        if self.rows[h].len() == 0 {
            0
        } else {
            self.trimmed + self.rows[h].len()
        }
    }

    /// The input of handle `h` for frame `f`, a frame still held.
    fn get(&self, h: usize, f: usize) -> (r: Packet)
        requires
            self.wf(),
            h < self@.len(),
            self.first_kept() <= f < self@[h as int].len(),
        ensures
            r == self@[h as int][f as int],
    {
        self.rows[h][f - self.trimmed]
    }

    /// The input that stands for handle `h` at frame `f`.
    fn effective_at(&self, h: usize, f: usize) -> (r: Packet)
        requires
            self.wf(),
            h < self@.len(),
            self.first_kept() <= f,
        ensures
            r == effective(self@[h as int], f as int),
    {
        let row = &self.rows[h];
        if f - self.trimmed < row.len() {
            row[f - self.trimmed]
        } else if row.len() > 0 {
            row[row.len() - 1]
        } else {
            Packet::zero()
        }
    }

    /// The inputs of every handle at frame `f`.
    fn inputs_at(&self, f: usize) -> (r: Vec<Packet>)
        requires
            self.wf(),
            self.first_kept() <= f,
        ensures
            r@ == frame_inputs(self@, f as int),
    {
        let mut r: Vec<Packet> = Vec::new();
        let mut h: usize = 0;
        while h < self.rows.len()
            invariant
                self.wf(),
                self.first_kept() <= f,
                h <= self@.len(),
                r@ == frame_inputs(self@, f as int).take(h as int),
            decreases self@.len() - h,
        {
            let p = self.effective_at(h, f);
            r.push(p);
            h += 1;
            assert(r@ =~= frame_inputs(self@, f as int).take(h as int));
        }
        assert(r@ =~= frame_inputs(self@, f as int));
        r
    }

    /// Appends `x` to the inputs received from handle `h`.
    fn push(&mut self, h: usize, x: Packet)
        requires
            old(self).wf(),
            h < old(self)@.len(),
            old(self)@[h as int].len() < usize::MAX,
        ensures
            final(self).wf(),
            final(self).first_kept() == old(self).first_kept(),
            final(self)@ == old(self)@.update(h as int, old(self)@[h as int].push(x)),
    {
        let mut row = self.rows.remove(h);
        row.push(x);
        self.rows.insert(h, row);
        self.full = Ghost(self.full@.update(h as int, self.full@[h as int].push(x)));
        assert forall|g: int| 0 <= g < self.full@.len() implies {
            &&& #[trigger] self.full@[g].len() <= usize::MAX
            &&& self.trimmed == 0 || self.trimmed < self.full@[g].len()
            &&& self.rows@[g]@ == self.full@[g].subrange(self.trimmed as int, self.full@[g].len() as int)
        } by {
            if g == h {
                assert(self.rows@[g]@ =~= self.full@[g].subrange(
                    self.trimmed as int,
                    self.full@[g].len() as int,
                ));
            } else {
                assert(self.rows@[g] == old(self).rows@[g]);
            }
        }
    }

    /// Drops the inputs of frames before `t`; every handle has an input for
    /// frame `t`, so each keeps its latest.
    fn trim_to(&mut self, t: usize)
        requires
            old(self).wf(),
            old(self).first_kept() <= t,
            forall|h: int| 0 <= h < old(self)@.len() ==> t < #[trigger] old(self)@[h].len(),
        ensures
            final(self).wf(),
            final(self)@ == old(self)@,
            final(self).first_kept() == t,
    {
        let drop = t - self.trimmed;
        let mut h: usize = 0;
        while h < self.rows.len()
            invariant
                h <= self.rows@.len(),
                self.rows@.len() == old(self).rows@.len(),
                self.full@.len() == self.rows@.len(),
                self.full == old(self).full,
                self.trimmed == old(self).trimmed,
                old(self).wf(),
                drop == t - self.trimmed,
                forall|h: int| 0 <= h < old(self)@.len() ==> t < #[trigger] old(self)@[h].len(),
                forall|g: int|
                    0 <= g < h ==> #[trigger] self.rows@[g]@ == self.full@[g].subrange(
                        t as int,
                        self.full@[g].len() as int,
                    ),
                forall|g: int| h <= g < self.rows@.len() ==> #[trigger] self.rows@[g] == old(self).rows@[g],
            decreases self.rows@.len() - h,
        {
            assert(self.rows@[h as int] == old(self).rows@[h as int]);
            assert(t < old(self)@[h as int].len());
            let row = self.rows.remove(h);
            let ghost before = row@;
            assert(before == self.full@[h as int].subrange(
                self.trimmed as int,
                self.full@[h as int].len() as int,
            ));
            let mut kept: Vec<Packet> = Vec::new();
            let mut i: usize = drop;
            while i < row.len()
                invariant
                    drop <= i <= row@.len(),
                    row@ == before,
                    drop <= before.len(),
                    kept@ == before.subrange(drop as int, i as int),
                decreases row@.len() - i,
            {
                kept.push(row[i]);
                i += 1;
                assert(kept@ =~= before.subrange(drop as int, i as int));
            }
            assert(kept@ =~= self.full@[h as int].subrange(t as int, self.full@[h as int].len() as int));
            let ghost mid = self.rows@;
            self.rows.insert(h, kept);
            assert forall|g: int| h < g < self.rows@.len() implies #[trigger] self.rows@[g] == old(
                self,
            ).rows@[g] by {
                assert(self.rows@[g] == mid[g - 1]);
            }
            h += 1;
        }
        self.trimmed = t;
        assert forall|g: int| 0 <= g < self.full@.len() implies {
            &&& #[trigger] self.full@[g].len() <= usize::MAX
            &&& self.trimmed == 0 || self.trimmed < self.full@[g].len()
            &&& self.rows@[g]@ == self.full@[g].subrange(self.trimmed as int, self.full@[g].len() as int)
        } by {
            assert(t < old(self)@[g].len());
            assert(old(self).full@[g].len() <= usize::MAX);
        }
    }
}

/// Drops every snapshot after frame `from` and simulates the frames again up
/// to the previous length, with the inputs now known.
fn rewind_and_replay(
    cfg: &Config,
    snaps: &mut Vec<World>,
    log: &InputLog,
    base: usize,
    from: usize,
)
    requires
        cfg.wf(),
        from < old(snaps)@.len(),
        base + old(snaps)@.len() <= usize::MAX,
        log.wf(),
        log.first_kept() <= base,
        snaps_ok(*cfg, old(snaps)@.take(from + 1), log@, base as int),
    ensures
        final(snaps)@.len() == old(snaps)@.len(),
        final(snaps)@[0] == old(snaps)@[0],
        forall|k: int| 0 <= k <= from ==> #[trigger] final(snaps)@[k] == old(snaps)@[k],
        snaps_ok(*cfg, final(snaps)@, log@, base as int),
{
    let target = snaps.len();
    let ghost first = snaps@[0];
    while snaps.len() > from + 1
        invariant
            from + 1 <= snaps@.len() <= target,
            target == old(snaps)@.len(),
            snaps@ == old(snaps)@.take(snaps@.len() as int),
        decreases snaps@.len(),
    {
        let ghost before = snaps@;
        snaps.pop();
        assert(snaps@ =~= before.take(before.len() - 1));
        assert(snaps@ =~= old(snaps)@.take(snaps@.len() as int));
    }
    assert(snaps@ =~= old(snaps)@.take(from + 1));
    while snaps.len() < target
        invariant
            cfg.wf(),
            from + 1 <= snaps@.len() <= target,
            snaps@[0] == first,
            forall|i: int| 0 <= i <= from ==> #[trigger] snaps@[i] == old(snaps)@[i],
            base + target <= usize::MAX,
            log.wf(),
            log.first_kept() <= base,
            snaps_ok(*cfg, snaps@, log@, base as int),
        decreases target - snaps@.len(),
    {
        let k = snaps.len() - 1;
        let row = log.inputs_at(base + k);
        assert(world_wf(*cfg, snaps@[k as int]@));
        let next = snaps[k].step(cfg, &row);
        snaps.push(next);
    }
}

proof fn lemma_snaps_ok_take(
    cfg: Config,
    snaps: Seq<World>,
    inputs: Seq<Seq<Packet>>,
    base: int,
    n: int,
)
    requires
        snaps_ok(cfg, snaps, inputs, base),
        0 <= n <= snaps.len(),
    ensures
        snaps_ok(cfg, snaps.take(n), inputs, base),
{
    let t = snaps.take(n);
    assert forall|k: int| 0 <= k < t.len() - 1 implies #[trigger] t[k + 1]@ == step_spec(
        cfg,
        t[k]@,
        frame_inputs(inputs, base + k),
    ) by {
        assert(t[k + 1] == snaps[k + 1]);
        assert(snaps[k + 1]@ == step_spec(cfg, snaps[k]@, frame_inputs(inputs, base + k)));
    }
}

/// A rollback session between a fixed set of players.
pub struct Engine {
    config: Config,
    local_handle: usize,
    input_delay: usize,
    max_prediction: usize,
    log: InputLog,
    /// The frame of the oldest snapshot kept; earlier ones were retired.
    base: usize,
    snapshots: Vec<World>,
    origin: Ghost<WorldView>,
}

impl Engine {
    pub closed spec fn cfg(&self) -> Config {
        self.config
    }

    pub closed spec fn local(&self) -> usize {
        self.local_handle
    }

    pub closed spec fn delay(&self) -> nat {
        self.input_delay as nat
    }

    pub closed spec fn window(&self) -> nat {
        self.max_prediction as nat
    }

    /// The inputs received so far, per handle, in frame order.
    pub closed spec fn inputs(&self) -> Seq<Seq<Packet>> {
        self.log@
    }

    /// The first frame whose inputs are still held; inputs of earlier
    /// frames, except each player's latest, have been dropped.
    pub closed spec fn inputs_kept_from(&self) -> nat {
        self.log.first_kept()
    }

    /// The state the session started from.
    pub closed spec fn start(&self) -> WorldView {
        self.origin@
    }

    /// The oldest frame whose snapshot is still kept.
    pub closed spec fn oldest(&self) -> nat {
        self.base as nat
    }

    /// The number of frames simulated so far.
    pub closed spec fn frame(&self) -> nat {
        (self.base + self.snapshots@.len() - 1) as nat
    }

    /// Whether every player's actual input for frame `f` is known.
    pub open spec fn confirmed(&self, f: int) -> bool {
        forall|h: int| 0 <= h < self.inputs().len() ==> f < #[trigger] self.inputs()[h].len()
    }

    /// The current state.
    pub closed spec fn state(&self) -> WorldView {
        self.snapshots@.last()@
    }

    /// The kept snapshot of frame `f`, for `oldest() <= f <= frame()`.
    pub closed spec fn snapshot(&self, f: int) -> WorldView {
        self.snapshots@[f - self.base]@
    }

    /// Every kept frame's snapshot is one step, with that frame's inputs as
    /// now known, from the snapshot before it, and the last is the current
    /// state.
    pub proof fn lemma_snapshot_chain(&self)
        requires
            self.wf(),
        ensures
            self.snapshot(self.frame() as int) == self.state(),
            forall|g: int|
                self.oldest() <= g < self.frame() ==> #[trigger] self.snapshot(g + 1) == step_spec(
                    self.cfg(),
                    self.snapshot(g),
                    frame_inputs(self.inputs(), g),
                ),
    {
        assert forall|g: int| self.oldest() <= g < self.frame() implies #[trigger] self.snapshot(
            g + 1,
        ) == step_spec(self.cfg(), self.snapshot(g), frame_inputs(self.inputs(), g)) by {
            let k = g - self.base;
            assert(self.snapshots@[k + 1]@ == step_spec(
                self.config,
                self.snapshots@[k]@,
                frame_inputs(self.inputs(), self.base + k),
            ));
        }
    }

    pub closed spec fn wf(&self) -> bool {
        &&& self.config.wf()
        &&& self.snapshots@.len() >= 1
        &&& self.base + self.snapshots@.len() <= usize::MAX
        &&& self.log.wf()
        &&& self.log.first_kept() <= self.base
        &&& self.local_handle < self.log@.len()
        &&& self.log@[self.local_handle as int].len() == self.frame() + self.input_delay
        &&& forall|h: int| 0 <= h < self.inputs().len() ==> self.base <= #[trigger] self.inputs()[h].len()
        &&& self.snapshots@[0]@ == run(self.config, self.origin@, self.inputs(), self.base as nat)
        &&& snaps_ok(self.config, self.snapshots@, self.inputs(), self.base as int)
    }

    proof fn lemma_state_is_run_upto(&self, n: nat)
        requires
            self.wf(),
            n < self.snapshots@.len(),
        ensures
            self.snapshots@[n as int]@ == run(self.cfg(), self.start(), self.inputs(), (self.base + n) as nat),
        decreases n,
    {
        if n > 0 {
            self.lemma_state_is_run_upto((n - 1) as nat);
            let k = n - 1;
            assert(self.snapshots@[k + 1]@ == step_spec(
                self.config,
                self.snapshots@[k]@,
                frame_inputs(self.inputs(), self.base + k),
            ));
        }
    }

    /// The current state is exactly what a single pass from the start state
    /// gives with the inputs now known, whatever was predicted, corrected and
    /// replayed on the way.
    pub proof fn lemma_state_is_single_pass(&self)
        requires
            self.wf(),
        ensures
            self.state() == run(self.cfg(), self.start(), self.inputs(), self.frame()),
    {
        self.lemma_state_is_run_upto((self.snapshots@.len() - 1) as nat);
    }

    /// Starts a session from `start`. Handle `local_handle` is this process's
    /// player; its input takes effect `input_delay` frames after it is given,
    /// and the frames before that use the empty packet. Advancing stops while
    /// a remote player's inputs lag `max_prediction` frames or more behind.
    pub fn new(
        config: Config,
        num_players: usize,
        local_handle: usize,
        input_delay: usize,
        max_prediction: usize,
        start: World,
    ) -> (r: Engine)
        requires
            config.wf(),
            world_wf(config, start@),
            local_handle < num_players,
        ensures
            r.wf(),
            r.cfg() == config,
            r.local() == local_handle,
            r.delay() == input_delay,
            r.window() == max_prediction,
            r.frame() == 0,
            r.oldest() == 0,
            r.start() == start@,
            r.state() == start@,
            r.inputs().len() == num_players,
            forall|h: int|
                0 <= h < num_players && h != local_handle ==> #[trigger] r.inputs()[h].len() == 0,
            r.inputs()[local_handle as int] == Seq::new(input_delay as nat, |i: int| zero_packet()),
    {
        let mut received: Vec<Vec<Packet>> = Vec::new();
        let mut h: usize = 0;
        while h < num_players
            invariant
                h <= num_players,
                local_handle < num_players,
                received@.len() == h,
                forall|i: int|
                    0 <= i < h && i != local_handle ==> #[trigger] received@[i]@.len() == 0,
                h > local_handle ==> received@[local_handle as int]@ == Seq::new(
                    input_delay as nat,
                    |i: int| zero_packet(),
                ),
            decreases num_players - h,
        {
            let mut row: Vec<Packet> = Vec::new();
            if h == local_handle {
                let mut i: usize = 0;
                while i < input_delay
                    invariant
                        i <= input_delay,
                        row@ == Seq::new(i as nat, |k: int| zero_packet()),
                    decreases input_delay - i,
                {
                    row.push(Packet::zero());
                    i += 1;
                    assert(row@ =~= Seq::new(i as nat, |k: int| zero_packet()));
                }
            }
            received.push(row);
            h += 1;
        }
        let ghost origin = start@;
        let mut snapshots: Vec<World> = Vec::new();
        snapshots.push(start);
        let ghost rows = received@;
        let log = InputLog::from_rows(received);
        let r = Engine {
            config,
            local_handle,
            input_delay,
            max_prediction,
            log,
            base: 0,
            snapshots,
            origin: Ghost(origin),
        };
        assert(r.inputs() == inputs_view(rows));
        assert(r.inputs()[local_handle as int] == rows[local_handle as int]@);
        assert forall|i: int|
            0 <= i < num_players && i != local_handle implies #[trigger] r.inputs()[i].len() == 0 by {
            assert(r.inputs()[i] == rows[i]@);
        }
        r
    }

    /// Whether every remote player's inputs reach far enough that the next
    /// frame stays within the prediction window.
    pub open spec fn can_predict(&self) -> bool {
        forall|h: int|
            0 <= h < self.inputs().len() && h != self.local() ==> self.frame() < #[trigger] self.inputs()[h].len()
                + self.window()
    }

    /// Whether one more frame, with its delayed local input, would overflow
    /// the frame counter.
    pub open spec fn at_frame_limit(&self) -> bool {
        self.frame() + self.delay() + 2 > usize::MAX
    }

    /// Retires the oldest snapshots while more than the prediction window of
    /// frames is kept and the oldest frame is confirmed: no input can change
    /// such a frame any more.
    fn retire(&mut self)
        requires
            old(self).wf(),
        ensures
            final(self).wf(),
            final(self).config == old(self).config,
            final(self).local_handle == old(self).local_handle,
            final(self).input_delay == old(self).input_delay,
            final(self).max_prediction == old(self).max_prediction,
            final(self).log@ == old(self).log@,
            final(self).origin == old(self).origin,
            final(self).frame() == old(self).frame(),
            final(self).state() == old(self).state(),
            final(self).oldest() >= old(self).oldest(),
            final(self).frame() - final(self).oldest() <= final(self).window()
                || !final(self).confirmed(final(self).oldest() as int),
    {
        while self.snapshots.len() - 1 > self.max_prediction
            invariant
                self.wf(),
                self.config == old(self).config,
                self.local_handle == old(self).local_handle,
                self.input_delay == old(self).input_delay,
                self.max_prediction == old(self).max_prediction,
                self.log@ == old(self).log@,
                self.origin == old(self).origin,
                self.frame() == old(self).frame(),
                self.state() == old(self).state(),
                self.oldest() >= old(self).oldest(),
            decreases self.snapshots@.len(),
        {
            if !self.is_confirmed(self.base) {
                return;
            }
            let ghost before = self.snapshots@;
            let ghost b = self.base;
            self.snapshots.remove(0);
            self.log.trim_to(self.base);
            self.base = self.base + 1;
            proof {
                assert(self.snapshots@ =~= before.subrange(1, before.len() as int));
                assert(before[1]@ == step_spec(self.config, before[0]@, frame_inputs(self.inputs(), b + 0)));
                assert forall|h: int| 0 <= h < self.inputs().len() implies self.base
                    <= #[trigger] self.inputs()[h].len() by {
                    assert(b < self.inputs()[h].len());
                }
                assert forall|k: int| 0 <= k < self.snapshots@.len() - 1 implies #[trigger] self.snapshots@[k
                    + 1]@ == step_spec(
                    self.config,
                    self.snapshots@[k]@,
                    frame_inputs(self.inputs(), self.base + k),
                ) by {
                    let k1 = k + 1;
                    assert(before[k1 + 1]@ == step_spec(
                        self.config,
                        before[k1]@,
                        frame_inputs(self.inputs(), b + k1),
                    ));
                    assert(self.snapshots@[k + 1] == before[k1 + 1]);
                    assert(self.snapshots@[k] == before[k1]);
                }
                assert forall|k: int| 0 <= k < self.snapshots@.len() implies world_wf(
                    self.config,
                    #[trigger] self.snapshots@[k]@,
                ) by {
                    assert(world_wf(self.config, before[k + 1]@));
                    assert(self.snapshots@[k] == before[k + 1]);
                }
            }
        }
    }

    /// Why `advance_frame` would fail now, or `None` when it would succeed.
    pub fn advance_blocked(&self) -> (r: Option<EngineError>)
        requires
            self.wf(),
        ensures
            r == if self.at_frame_limit() {
                Some(EngineError::FrameLimit)
            } else if !self.can_predict() {
                Some(EngineError::PredictionThreshold)
            } else {
                None::<EngineError>
            },
    {
        let n = self.base + (self.snapshots.len() - 1);
        if self.input_delay > usize::MAX - 2 || n > usize::MAX - 2 - self.input_delay {
            return Some(EngineError::FrameLimit);
        }
        let mut h: usize = 0;
        while h < self.log.handles()
            invariant
                self.wf(),
                !self.at_frame_limit(),
                n == self.frame(),
                h <= self.log@.len(),
                forall|i: int|
                    0 <= i < h && i != self.local() ==> n < #[trigger] self.inputs()[i].len()
                        + self.window(),
            decreases self.log@.len() - h,
        {
            let got = self.log.count(h);
            if h != self.local_handle && n >= got && n - got >= self.max_prediction {
                return Some(EngineError::PredictionThreshold);
            }
            h += 1;
        }
        None
    }

    /// Simulates the next frame. The local input given here is recorded for
    /// the frame `input_delay` frames ahead; every remote player whose input
    /// for this frame is unknown is predicted to repeat its latest input.
    /// Fails, changing nothing, when the frame counter would overflow, or when
    /// a remote player lags the whole prediction window behind.
    pub fn advance_frame(&mut self, local: Packet) -> (r: Result<(), EngineError>)
        requires
            old(self).wf(),
        ensures
            final(self).wf(),
            final(self).state() == run(
                final(self).cfg(),
                final(self).start(),
                final(self).inputs(),
                final(self).frame(),
            ),
            final(self).snapshot(final(self).frame() as int) == final(self).state(),
            forall|g: int|
                final(self).oldest() <= g < final(self).frame() ==> #[trigger] final(self).snapshot(
                    g + 1,
                ) == step_spec(
                    final(self).cfg(),
                    final(self).snapshot(g),
                    frame_inputs(final(self).inputs(), g),
                ),
            old(self).at_frame_limit() ==> r == Err::<(), EngineError>(EngineError::FrameLimit)
                && *final(self) == *old(self),
            !old(self).at_frame_limit() && !old(self).can_predict() ==> r == Err::<(), EngineError>(
                EngineError::PredictionThreshold,
            ) && *final(self) == *old(self),
            !old(self).at_frame_limit() && old(self).can_predict() ==> {
                &&& r == Ok::<(), EngineError>(())
                &&& final(self).cfg() == old(self).cfg()
                &&& final(self).local() == old(self).local()
                &&& final(self).delay() == old(self).delay()
                &&& final(self).window() == old(self).window()
                &&& final(self).start() == old(self).start()
                &&& final(self).frame() == old(self).frame() + 1
                &&& final(self).oldest() >= old(self).oldest()
                &&& final(self).frame() - final(self).oldest() <= final(self).window()
                    || !final(self).confirmed(final(self).oldest() as int)
                &&& final(self).inputs() == old(self).inputs().update(
                    old(self).local() as int,
                    old(self).inputs()[old(self).local() as int].push(local),
                )
                &&& final(self).state() == step_spec(
                    old(self).cfg(),
                    old(self).state(),
                    frame_inputs(final(self).inputs(), old(self).frame() as int),
                )
            },
    {
        proof {
            self.lemma_state_is_single_pass();
            self.lemma_snapshot_chain();
        }
        if let Some(e) = self.advance_blocked() {
            return Err(e);
        }
        let len = self.snapshots.len();
        let n = self.base + (len - 1);
        let ghost old_inputs = self.inputs();
        let lh = self.local_handle;
        self.log.push(lh, local);
        proof {
            lemma_push_agrees(old_inputs, lh as int, local, n as int);
            lemma_snaps_transfer(
                self.config,
                self.snapshots@,
                old_inputs,
                self.inputs(),
                self.base as int,
            );
            lemma_run_agrees(self.config, self.origin@, old_inputs, self.inputs(), self.base as nat);
            assert forall|h: int| 0 <= h < self.inputs().len() implies self.base
                <= #[trigger] self.inputs()[h].len() by {
                assert(self.base <= old_inputs[h].len());
            }
        }
        let row = self.log.inputs_at(n);
        assert(world_wf(self.config, self.snapshots@[len - 1]@));
        let next = self.snapshots[len - 1].step(&self.config, &row);
        let ghost before = self.snapshots@;
        self.snapshots.push(next);
        assert(self.snapshots@[0] == old(self).snapshots@[0]);
        assert forall|k: int| 0 <= k < self.snapshots@.len() - 1 implies #[trigger] self.snapshots@[k
            + 1]@ == step_spec(
            self.config,
            self.snapshots@[k]@,
            frame_inputs(self.inputs(), self.base + k),
        ) by {
            if k < len - 1 {
                assert(self.snapshots@[k + 1] == before[k + 1]);
                assert(self.snapshots@[k] == before[k]);
            }
        }
        assert forall|k: int| 0 <= k < self.snapshots@.len() implies world_wf(
            self.config,
            #[trigger] self.snapshots@[k]@,
        ) by {
            if k < before.len() {
                assert(self.snapshots@[k] == before[k]);
            }
        }
        self.retire();
        proof {
            self.lemma_state_is_single_pass();
            self.lemma_snapshot_chain();
        }
        Ok(())
    }

    /// Records the input of remote player `handle` for frame `f`. Inputs
    /// of one player arrive in frame order. When the frame was already
    /// simulated with a prediction that differs from this input, the state is
    /// restored to that frame and every frame since is simulated again; the
    /// result tells whether that happened. An input that was already received
    /// changes nothing, so delivering it twice is the same as once.
    pub fn add_remote_input(&mut self, handle: usize, f: usize, p: Packet) -> (r: Result<
        bool,
        EngineError,
    >)
        requires
            old(self).wf(),
        ensures
            final(self).wf(),
            final(self).state() == run(
                final(self).cfg(),
                final(self).start(),
                final(self).inputs(),
                final(self).frame(),
            ),
            final(self).snapshot(final(self).frame() as int) == final(self).state(),
            forall|g: int|
                final(self).oldest() <= g < final(self).frame() ==> #[trigger] final(self).snapshot(
                    g + 1,
                ) == step_spec(
                    final(self).cfg(),
                    final(self).snapshot(g),
                    frame_inputs(final(self).inputs(), g),
                ),
            final(self).cfg() == old(self).cfg(),
            final(self).local() == old(self).local(),
            final(self).delay() == old(self).delay(),
            final(self).window() == old(self).window(),
            final(self).start() == old(self).start(),
            final(self).frame() == old(self).frame(),
            final(self).oldest() == old(self).oldest(),
            handle >= old(self).inputs().len() || handle == old(self).local() ==> r == Err::<
                bool,
                EngineError,
            >(EngineError::NotRemote) && *final(self) == *old(self),
            handle < old(self).inputs().len() && handle != old(self).local() ==> {
                let got = old(self).inputs()[handle as int];
                &&& f > got.len() ==> r == Err::<bool, EngineError>(EngineError::OutOfOrder)
                    && *final(self) == *old(self)
                &&& f < old(self).inputs_kept_from() ==> r == Err::<bool, EngineError>(
                    EngineError::Retired,
                ) && *final(self) == *old(self)
                &&& old(self).inputs_kept_from() <= f < got.len() && got[f as int] != p ==> r == Err::<
                    bool,
                    EngineError,
                >(EngineError::Conflict) && *final(self) == *old(self)
                &&& old(self).inputs_kept_from() <= f < got.len() && got[f as int] == p ==> r == Ok::<bool, EngineError>(false)
                    && *final(self) == *old(self)
                &&& f == got.len() && f == usize::MAX ==> r == Err::<bool, EngineError>(
                    EngineError::FrameLimit,
                ) && *final(self) == *old(self)
                &&& f == got.len() && f < usize::MAX ==> {
                    &&& final(self).inputs() == old(self).inputs().update(handle as int, got.push(p))
                    &&& r == Ok::<bool, EngineError>(
                        f < old(self).frame() && p != effective(got, f as int),
                    )
                    &&& !(f < old(self).frame() && p != effective(got, f as int)) ==> final(self).state()
                        == old(self).state()
                    &&& forall|g: int|
                        old(self).oldest() <= g <= f && g <= old(self).frame() ==> #[trigger] final(self).snapshot(g)
                            == old(self).snapshot(g)
                }
            },
    {
        proof {
            self.lemma_state_is_single_pass();
            self.lemma_snapshot_chain();
        }
        if handle >= self.log.handles() || handle == self.local_handle {
            return Err(EngineError::NotRemote);
        }
        let len = self.log.count(handle);
        if f > len {
            return Err(EngineError::OutOfOrder);
        }
        if f < len {
            if f < self.log.trimmed {
                return Err(EngineError::Retired);
            }
            if self.log.get(handle, f) == p {
                return Ok(false);
            } else {
                return Err(EngineError::Conflict);
            }
        }
        if f == usize::MAX {
            return Err(EngineError::FrameLimit);
        }
        let n = self.base + (self.snapshots.len() - 1);
        let predicted = self.log.effective_at(handle, len);
        let ghost old_inputs = self.inputs();
        self.log.push(handle, p);
        let lh = self.local_handle;
        assert(self.inputs()[lh as int] == old_inputs[lh as int]);
        assert(len > 0 ==> predicted == effective(old_inputs[handle as int], f as int));
        proof {
            assert(self.base <= old_inputs[handle as int].len());
            assert forall|h: int| 0 <= h < self.inputs().len() implies self.base
                <= #[trigger] self.inputs()[h].len() by {
                assert(self.base <= old_inputs[h].len());
            }
        }
        if f < n && p != predicted {
            let from = f - self.base;
            proof {
                lemma_push_agrees(old_inputs, handle as int, p, f as int);
                lemma_run_agrees(self.config, self.origin@, old_inputs, self.inputs(), self.base as nat);
                lemma_snaps_ok_take(
                    self.config,
                    self.snapshots@,
                    old_inputs,
                    self.base as int,
                    from + 1,
                );
                lemma_snaps_transfer(
                    self.config,
                    self.snapshots@.take(from + 1),
                    old_inputs,
                    self.inputs(),
                    self.base as int,
                );
            }
            rewind_and_replay(&self.config, &mut self.snapshots, &self.log, self.base, from);
            proof {
                self.lemma_state_is_single_pass();
                self.lemma_snapshot_chain();
            }
            Ok(true)
        } else {
            proof {
                lemma_push_agrees(old_inputs, handle as int, p, n as int);
                lemma_run_agrees(self.config, self.origin@, old_inputs, self.inputs(), self.base as nat);
                lemma_snaps_transfer(
                    self.config,
                    self.snapshots@,
                    old_inputs,
                    self.inputs(),
                    self.base as int,
                );
                self.lemma_state_is_single_pass();
                self.lemma_snapshot_chain();
            }
            Ok(false)
        }
    }

    /// The oldest frame whose snapshot is still kept; a late input can
    /// only concern this frame or a later one.
    pub fn oldest_frame(&self) -> (r: usize)
        requires
            self.wf(),
        ensures
            r == self.oldest(),
    {
        self.base
    }

    /// The number of frames simulated so far.
    pub fn current_frame(&self) -> (r: usize)
        requires
            self.wf(),
        ensures
            r == self.frame(),
    {
        self.base + (self.snapshots.len() - 1)
    }

    /// The current state.
    pub fn current_state(&self) -> (r: &World)
        requires
            self.wf(),
        ensures
            r@ == self.state(),
    {
        let n = self.snapshots.len() - 1;
        &self.snapshots[n]
    }

    /// The number of inputs received so far from `handle`.
    pub fn received_count(&self, handle: usize) -> (r: usize)
        requires
            self.wf(),
            handle < self.inputs().len(),
        ensures
            r == self.inputs()[handle as int].len(),
    {
        self.log.count(handle)
    }

    /// Whether every player's got input for frame `f` is known.
    pub fn is_confirmed(&self, f: usize) -> (r: bool)
        requires
            self.wf(),
        ensures
            r == self.confirmed(f as int),
    {
        let mut h: usize = 0;
        while h < self.log.handles()
            invariant
                self.wf(),
                h <= self.log@.len(),
                forall|i: int| 0 <= i < h ==> f < #[trigger] self.inputs()[i].len(),
            decreases self.log@.len() - h,
        {
            if f >= self.log.count(h) {
                return false;
            }
            h += 1;
        }
        true
    }
}

} // verus!
