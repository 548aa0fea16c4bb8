//! Session bootstrap: waiting for the peer quorum, then fixing each player's
//! handle and the local one.

use vstd::prelude::*;

verus! {

/// How the transport reports one participant.
#[derive(Clone, Copy, Debug, PartialEq, Eq, Structural)]
pub enum PeerKind {
    /// This process's own player.
    Local,
    /// A player on another peer.
    Remote,
}

/// What a ready session is started with.
#[derive(Clone, Copy, Debug, PartialEq, Eq, Structural)]
pub struct SessionPlan {
    pub num_players: usize,
    pub local_handle: usize,
    pub input_delay: usize,
}

/// Why the participants that were discovered cannot form a session.
#[derive(Clone, Copy, Debug, PartialEq, Eq, Structural)]
pub enum BootstrapError {
    /// More participants joined than the quorum.
    TooManyPlayers,
    /// None of the participants is this process's own.
    NoLocalPlayer,
    /// More than one participant claims to be this process's own.
    SeveralLocalPlayers,
}

/// The two phases of a session: waiting for peers, then running.
#[derive(Clone, Copy, Debug, PartialEq, Eq, Structural)]
pub enum Phase {
    Waiting,
    Active(SessionPlan),
}

/// Peer discovery, from the first poll until the session starts.
#[derive(Clone, Copy, Debug, PartialEq, Eq, Structural)]
pub struct Bootstrap {
    pub quorum: usize,
    pub input_delay: usize,
    pub phase: Phase,
}

pub open spec fn count_local(peers: Seq<PeerKind>) -> nat
    decreases peers.len(),
{
    if peers.len() == 0 {
        0
    } else {
        count_local(peers.drop_last()) + if peers.last() == PeerKind::Local {
            1nat
        } else {
            0nat
        }
    }
}

/// What discovery decides from the participants known now: `None` to keep
/// waiting, or the plan in which each participant's handle is its position in
/// discovery order and the local handle is the position of the local one.
pub open spec fn plan_for(peers: Seq<PeerKind>, quorum: usize, input_delay: usize) -> Result<
    Option<SessionPlan>,
    BootstrapError,
> {
    if peers.len() < quorum {
        Ok(None)
    } else if peers.len() > quorum {
        Err(BootstrapError::TooManyPlayers)
    } else if count_local(peers) == 0 {
        Err(BootstrapError::NoLocalPlayer)
    } else if count_local(peers) > 1 {
        Err(BootstrapError::SeveralLocalPlayers)
    } else {
        Ok(
            Some(
                SessionPlan {
                    num_players: quorum,
                    local_handle: choose|i: usize| i < peers.len() && peers[i as int] == PeerKind::Local,
                    input_delay,
                },
            ),
        )
    }
}

proof fn lemma_single_local(peers: Seq<PeerKind>, i: int, j: int)
    requires
        count_local(peers) == 1,
        0 <= i < peers.len(),
        0 <= j < peers.len(),
        peers[i] == PeerKind::Local,
        peers[j] == PeerKind::Local,
    ensures
        i == j,
    decreases peers.len(),
{
    let last = peers.len() - 1;
    if i != last && j != last {
        assert(peers.drop_last()[i] == peers[i]);
        assert(peers.drop_last()[j] == peers[j]);
        if peers.last() == PeerKind::Local {
            lemma_count_has_local(peers.drop_last(), i);
        } else {
            lemma_single_local(peers.drop_last(), i, j);
        }
    } else if i == last && j != last {
        assert(peers.drop_last()[j] == peers[j]);
        lemma_count_has_local(peers.drop_last(), j);
    } else if j == last && i != last {
        assert(peers.drop_last()[i] == peers[i]);
        lemma_count_has_local(peers.drop_last(), i);
    }
}

proof fn lemma_count_has_local(peers: Seq<PeerKind>, i: int)
    requires
        0 <= i < peers.len(),
        peers[i] == PeerKind::Local,
    ensures
        count_local(peers) >= 1,
    decreases peers.len(),
{
    if i < peers.len() - 1 {
        assert(peers.drop_last()[i] == peers[i]);
        lemma_count_has_local(peers.drop_last(), i);
    }
}

/// Decides, from the participants discovered so far in discovery order,
/// whether to keep waiting or to start a session of `quorum` players.
pub fn plan_session(peers: &Vec<PeerKind>, quorum: usize, input_delay: usize) -> (r: Result<
    Option<SessionPlan>,
    BootstrapError,
>)
    ensures
        r == plan_for(peers@, quorum, input_delay),
        r matches Ok(Some(plan)) ==> plan.local_handle < peers@.len() && peers@[plan.local_handle as int]
            == PeerKind::Local,
{
    if peers.len() < quorum {
        return Ok(None);
    }
    if peers.len() > quorum {
        return Err(BootstrapError::TooManyPlayers);
    }
    let mut locals: usize = 0;
    let mut local_handle: usize = 0;
    let mut i: usize = 0;
    while i < peers.len()
        invariant
            i <= peers@.len(),
            locals == count_local(peers@.take(i as int)),
            locals <= i,
            locals > 0 ==> local_handle < i && peers@[local_handle as int] == PeerKind::Local,
        decreases peers@.len() - i,
    {
        assert(peers@.take(i + 1).drop_last() =~= peers@.take(i as int));
        if peers[i] == PeerKind::Local {
            if locals == 0 {
                local_handle = i;
            }
            locals = locals + 1;
        }
        i += 1;
    }
    assert(peers@.take(peers@.len() as int) =~= peers@);
    if locals == 0 {
        return Err(BootstrapError::NoLocalPlayer);
    }
    if locals > 1 {
        return Err(BootstrapError::SeveralLocalPlayers);
    }
    let ghost c = choose|j: usize| j < peers@.len() && peers@[j as int] == PeerKind::Local;
    proof {
        lemma_single_local(peers@, local_handle as int, c as int);
    }
    Ok(Some(SessionPlan { num_players: quorum, local_handle, input_delay }))
}

impl Bootstrap {
    /// Discovery that waits for `quorum` players and will start the session
    /// with `input_delay` frames of local input delay.
    pub fn new(quorum: usize, input_delay: usize) -> (r: Bootstrap)
        ensures
            r == (Bootstrap { quorum, input_delay, phase: Phase::Waiting }),
    {
        Bootstrap { quorum, input_delay, phase: Phase::Waiting }
    }

    /// Handles one poll of the transport. While waiting, it starts the session
    /// once the quorum has joined and returns the plan; once started, it is
    /// inert and returns `None` whatever it is shown.
    pub fn poll(&mut self, peers: &Vec<PeerKind>) -> (r: Result<Option<SessionPlan>, BootstrapError>)
        ensures
            final(self).quorum == old(self).quorum,
            final(self).input_delay == old(self).input_delay,
            old(self).phase is Active ==> r == Ok::<Option<SessionPlan>, BootstrapError>(None)
                && *final(self) == *old(self),
            old(self).phase is Waiting ==> r == plan_for(
                peers@,
                old(self).quorum,
                old(self).input_delay,
            ),
            old(self).phase is Waiting ==> final(self).phase == match r {
                Ok(Some(plan)) => Phase::Active(plan),
                _ => Phase::Waiting,
            },
    {
        match self.phase {
            Phase::Active(_) => Ok(None),
            Phase::Waiting => {
                let r = plan_session(peers, self.quorum, self.input_delay);
                if let Ok(Some(plan)) = r {
                    self.phase = Phase::Active(plan);
                }
                r
            },
        }
    }
}

} // verus!
