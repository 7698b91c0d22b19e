//! Scoring of the backend servers and dispatch of redirects to confirmed clients.
use crate::client::{state_rank, Client, ClientState};
use crate::messages::{msgs_view, Msg};
use crate::session::Clients;
use vstd::prelude::*;
use vstd::string::StringExecFns;

verus! {

broadcast use vstd::string::group_string_axioms;

/// The front server's own address, port and advertised host name.
pub struct GenericOptions {
    pub address: [u8; 4],
    pub hostname: String,
    pub port: u16,
}

impl GenericOptions {
    /// The address and port to listen on.
    pub fn bind_addr(&self) -> (r: ([u8; 4], u16))
        ensures
            r == (self.address, self.port),
    {
        (self.address, self.port)
    }

    /// The host name advertised to server browsers.
    pub fn hostname(&self) -> (r: String)
        ensures
            r@ == self.hostname@,
    {
        self.hostname.clone()
    }
}

/// A backend game server that players are sent on to.
#[derive(Clone, Copy, Debug)]
pub struct Server {
    pub address: [u8; 4],
    pub port: u16,
}

/// What a probe of a backend server reports.
#[derive(Clone, Copy, Debug, PartialEq, Eq, Structural)]
pub struct ServerInfo {
    pub players: u8,
    pub max_players: u8,
    pub bots: u8,
}

/// Why a backend server is not a candidate.
#[derive(Clone, Copy, Debug, PartialEq, Eq, Structural)]
pub enum ServerError {
    ServerFull,
}

/// The configuration: this server, and the named backends.
pub struct MatchmakingConfig {
    pub matchmaking: GenericOptions,
    pub servers: Vec<(String, Server)>,
}

impl MatchmakingConfig {
    /// The address and port to listen on.
    pub fn bind_addr(&self) -> (r: ([u8; 4], u16))
        ensures
            r == (self.matchmaking.address, self.matchmaking.port),
    {
        self.matchmaking.bind_addr()
    }

    /// The host name advertised to server browsers.
    pub fn hostname(&self) -> (r: String)
        ensures
            r@ == self.matchmaking.hostname@,
    {
        self.matchmaking.hostname()
    }
}

/// Player count from which a server's players add to its score.
pub const POPULATED: u8 = 6;
/// The maximum player count that servers are preferred to have.
pub const PREFERRED_MAX_PLAYERS: u8 = 24;

/// The score of a probed server: none when it is full; else its players when there are
/// at least six, less the distance of its maximum from 24, less its bots.
pub open spec fn score_of(info: ServerInfo) -> Option<int> {
    if info.players >= info.max_players {
        None
    } else {
        let m = info.max_players as int - PREFERRED_MAX_PLAYERS as int;
        Some(
            (if info.players >= POPULATED { info.players as int } else { 0 }) - (if m >= 0 { m } else { -m })
                - info.bots as int,
        )
    }
}

impl Server {
    /// Scores this server from what its probe reported.
    pub fn score(&self, info: &ServerInfo) -> (r: Result<isize, ServerError>)
        ensures
            match score_of(*info) {
                Some(s) => r == Ok::<isize, ServerError>(s as isize),
                None => r == Err::<isize, ServerError>(ServerError::ServerFull),
            },
    {
        if info.players >= info.max_players {
            return Err(ServerError::ServerFull);
        }
        let mut score: isize = 0;
        if info.players >= POPULATED {
            score = score + info.players as isize;
        }
        let m: isize = info.max_players as isize - PREFERRED_MAX_PLAYERS as isize;
        score = score - if m >= 0 { m } else { -m };
        score = score - info.bots as isize;
        Ok(score)
    }
}

/// The score of candidate `i`: none when its probe failed or it is full.
pub open spec fn candidate_score(probes: Seq<Option<ServerInfo>>, i: int) -> Option<int> {
    match probes[i] {
        Some(info) => score_of(info),
        None => None,
    }
}

/// Candidate `i` is the first of the highest-scoring ones.
pub open spec fn is_best(probes: Seq<Option<ServerInfo>>, i: int) -> bool {
    &&& 0 <= i < probes.len()
    &&& candidate_score(probes, i) matches Some(s) && {
        &&& forall|j: int| 0 <= j < probes.len() ==> match #[trigger] candidate_score(probes, j) {
            Some(t) => t <= s,
            None => true,
        }
        &&& forall|j: int| 0 <= j < i ==> match #[trigger] candidate_score(probes, j) {
            Some(t) => t < s,
            None => true,
        }
    }
}

/// Scanning candidates from `i` on, `best` holding the first best one before and its score.
pub open spec fn best_from(probes: Seq<Option<ServerInfo>>, i: int, best: Option<(int, int)>) -> Option<usize>
    decreases probes.len() - i,
{
    if i < 0 || i >= probes.len() {
        match best {
            Some((b, _)) => Some(b as usize),
            None => None,
        }
    } else {
        match candidate_score(probes, i) {
            Some(s) => match best {
                Some((_, t)) => if s > t {
                    best_from(probes, i + 1, Some((i, s)))
                } else {
                    best_from(probes, i + 1, best)
                },
                None => best_from(probes, i + 1, Some((i, s))),
            },
            None => best_from(probes, i + 1, best),
        }
    }
}

/// The index of the first of the highest-scoring candidates.
pub open spec fn best_index(probes: Seq<Option<ServerInfo>>) -> Option<usize> {
    best_from(probes, 0, None)
}

/// The redirect command of a tick: to the first best candidate, if any scores.
pub open spec fn tick_target(config: MatchmakingConfig, probes: Seq<Option<ServerInfo>>) -> Option<Seq<char>> {
    match best_index(probes) {
        Some(i) => Some(redirect_text(config.servers@[i as int].1)),
        None => None,
    }
}

/// The index of the first of the highest-scoring candidates, given each one's probe
/// (`None` where the probe failed); `None` when no candidate scores.
pub fn best_candidate(config: &MatchmakingConfig, probes: &Vec<Option<ServerInfo>>) -> (r: Option<usize>)
    requires
        probes@.len() == config.servers@.len(),
    ensures
        r == best_index(probes@),
        r matches Some(i) ==> is_best(probes@, i as int),
        r is None ==> forall|j: int| 0 <= j < probes@.len() ==> #[trigger] candidate_score(probes@, j) is None,
{
    let mut best: Option<usize> = None;
    let mut best_score: isize = 0;
    let mut i: usize = 0;
    while i < probes.len()
        invariant
            i <= probes@.len(),
            probes@.len() == config.servers@.len(),
            best matches Some(b) ==> b < i && candidate_score(probes@, b as int) == Some(best_score as int)
                && (forall|j: int| 0 <= j < i ==> match #[trigger] candidate_score(probes@, j) {
                Some(t) => t <= best_score,
                None => true,
            }) && (forall|j: int| 0 <= j < b ==> match #[trigger] candidate_score(probes@, j) {
                Some(t) => t < best_score,
                None => true,
            }),
            best is None ==> forall|j: int| 0 <= j < i ==> #[trigger] candidate_score(probes@, j) is None,
            best_index(probes@) == best_from(probes@, i as int, match best {
                Some(b) => Some((b as int, best_score as int)),
                None => None,
            }),
        decreases probes@.len() - i,
    {
        if let Some(info) = &probes[i] {
            let (_, server) = &config.servers[i];
            if let Ok(s) = server.score(info) {
                let better = match best {
                    Some(_) => s > best_score,
                    None => true,
                };
                if better {
                    best = Some(i);
                    best_score = s;
                }
            }
        }
        i = i + 1;
    }
    best
}

/// The decimal digits of `n`, most significant first, without leading zeros.
pub open spec fn decimal(n: nat) -> Seq<char>
    decreases n,
{
    if n < 10 {
        seq![digit(n)]
    } else {
        decimal(n / 10).push(digit(n % 10))
    }
}

/// The character of a decimal digit.
pub open spec fn digit(d: nat) -> char {
    if d == 0 {
        '0'
    } else if d == 1 {
        '1'
    } else if d == 2 {
        '2'
    } else if d == 3 {
        '3'
    } else if d == 4 {
        '4'
    } else if d == 5 {
        '5'
    } else if d == 6 {
        '6'
    } else if d == 7 {
        '7'
    } else if d == 8 {
        '8'
    } else {
        '9'
    }
}

/// `n` in decimal.
///
/// Relies on the `Display` of std's integers (through `to_string`), which writes the
/// decimal digits without sign or leading zeros.
#[verifier::external_body]
fn decimal_string(n: u16) -> (r: String)
    ensures
        r@ == decimal(n as nat),
{
    n.to_string()
}

/// The console command that sends a client to `server`.
pub open spec fn redirect_text(server: Server) -> Seq<char> {
    "redirect "@ + decimal(server.address[0] as nat) + "."@ + decimal(server.address[1] as nat) + "."@
        + decimal(server.address[2] as nat) + "."@ + decimal(server.address[3] as nat) + ":"@ + decimal(
        server.port as nat,
    )
}

/// The command `redirect <a.b.c.d>:<port>` for `server`.
pub fn redirect_command(server: &Server) -> (r: String)
    ensures
        r@ == redirect_text(*server),
{
    let mut s = String::from_str("redirect ");
    s.append(decimal_string(server.address[0] as u16).as_str());
    s.append(".");
    s.append(decimal_string(server.address[1] as u16).as_str());
    s.append(".");
    s.append(decimal_string(server.address[2] as u16).as_str());
    s.append(".");
    s.append(decimal_string(server.address[3] as u16).as_str());
    s.append(":");
    s.append(decimal_string(server.port).as_str());
    s
}

/// A tick is due once a second has passed since the last one.
pub open spec fn tick_due(last: u64, now: u64) -> bool {
    now >= last + 1
}

/// What a tick with a redirect to `target` (if any) makes of a client.
pub open spec fn redirected(old: Client, new: Client, target: Option<Seq<char>>) -> bool {
    if target is Some && old.state == ClientState::Confirmed {
        &&& new.state == ClientState::Redirected
        &&& msgs_view(new.queued@) == msgs_view(old.queued@).push(Msg::StringCmd(target->0))
        &&& new.joined == old.joined
        &&& new.name == old.name
        &&& new.reliable == old.reliable
        &&& new.sequence == old.sequence
        &&& new.netchannels == old.netchannels
    } else {
        new == old
    }
}

/// The periodic matchmaking step at time `now` (in seconds), given the probe of each
/// configured backend (`None` where it failed).
///
/// Once a second has passed since `last`, `last` becomes `now` and, when some backend
/// scores, every confirmed client gets a redirect to the first best one queued and
/// becomes redirected. Other clients, and every client when nothing scores or no tick
/// is due, are left as they are.
pub fn matchmaking_tick(
    config: &MatchmakingConfig,
    last: &mut u64,
    now: u64,
    clients: &mut Clients,
    probes: &Vec<Option<ServerInfo>>,
)
    requires
        probes@.len() == config.servers@.len(),
        old(clients).wf(),
    ensures
        final(clients).wf(),
        tick_due(*old(last), now) ==> *final(last) == now,
        !tick_due(*old(last), now) ==> *final(last) == *old(last) && *final(clients) == *old(clients),
        final(clients).entries@.len() == old(clients).entries@.len(),
        tick_due(*old(last), now) ==> redirected_all(*old(clients), *final(clients), tick_target(*config, probes@)),
{
    if now <= *last {
        proof {
            assert(redirected_all(*old(clients), *clients, None));
        }
        return;
    }
    *last = now;
    let best = best_candidate(config, probes);
    let i = match best {
        Some(i) => i,
        None => {
            proof {
                assert(redirected_all(*old(clients), *clients, None));
            }
            return;
        },
    };
    proof {
        assert(tick_target(*config, probes@) == Some(redirect_text(config.servers@[i as int].1)));
    }
    let command = redirect_command(&config.servers[i].1);
    let ghost target = command@;
    let mut k: usize = 0;
    while k < clients.entries.len()
        invariant
            clients.wf(),
            k <= clients.entries@.len(),
            clients.entries@.len() == old(clients).entries@.len(),
            command@ == target,
            forall|j: int|
                0 <= j < clients.entries@.len() ==> (#[trigger] clients.entries@[j]).0 == old(clients).entries@[j].0,
            forall|j: int|
                0 <= j < k ==> #[trigger] redirected(
                    old(clients).entries@[j].1,
                    clients.entries@[j].1,
                    Some(target),
                ),
            forall|j: int| k <= j < clients.entries@.len() ==> clients.entries@[j] == old(clients).entries@[j],
        decreases clients.entries@.len() - k,
    {
        let ghost prev = clients.entries@;
        if clients.entries[k].1.state == ClientState::Confirmed {
            let cmd = command.clone();
            clients.redirect_at(k, cmd);
        }
        proof {
            assert forall|j: int| 0 <= j < clients.entries@.len() implies (#[trigger] clients.entries@[j]).0
                == old(clients).entries@[j].0 by {
                assert(prev[j].0 == old(clients).entries@[j].0);
            }
            assert forall|j: int| 0 <= j < k + 1 implies #[trigger] redirected(old(clients).entries@[j].1, clients.entries@[j].1, Some(target)) by {
                if j < k {
                    assert(clients.entries@[j] == prev[j]);
                    assert(redirected(old(clients).entries@[j].1, prev[j].1, Some(target)));
                } else {
                    assert(prev[j] == old(clients).entries@[j]);
                }
            }
        }
        k = k + 1;
    }
    proof {
        assert(redirected_all(*old(clients), *clients, Some(target)));
    }
}

/// Every client of `new` is what a tick with `target` makes of the one of `old`.
pub open spec fn redirected_all(old: Clients, new: Clients, target: Option<Seq<char>>) -> bool {
    forall|k: int|
        0 <= k < old.entries@.len() ==> new.entries@[k].0 == old.entries@[k].0 && #[trigger] redirected(
            old.entries@[k].1,
            new.entries@[k].1,
            target,
        )
}

/// A matchmaking tick only moves a client's state forward (Confirmed to Redirected) and
/// keeps its outbound sequence.
pub proof fn lemma_tick_monotone(old: Client, new: Client, target: Option<Seq<char>>)
    requires
        redirected(old, new, target),
    ensures
        state_rank(new.state) >= state_rank(old.state),
        new.sequence == old.sequence,
{
}

} // verus!
