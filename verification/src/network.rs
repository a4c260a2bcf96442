use vstd::prelude::*;
use std::collections::VecDeque;

verus! {

/// The connection and the frame the simulation is at.
pub struct NetworkManager {
    pub is_host: bool,
    pub connected: bool,
    pub local_player_id: u32,
    pub remote_player_id: u32,
    /// Frames of input delay.
    pub input_delay: usize,
    /// How many frames can be rolled back.
    pub rollback_window: usize,
    pub current_frame: u64,
}

impl Default for NetworkManager {
    fn default() -> (r: Self)
        ensures
            r.is_host,
            !r.connected,
            r.local_player_id == 0,
            r.remote_player_id == 1,
            r.input_delay == 3,
            r.rollback_window == 10,
            r.current_frame == 0,
    {
        NetworkManager {
            is_host: true,
            connected: false,
            local_player_id: 0,
            remote_player_id: 1,
            input_delay: 3,
            rollback_window: 10,
            current_frame: 0,
        }
    }
}

/// One player's input for one frame; `controls` carries the movement and the
/// spell target.
#[derive(Clone, Copy)]
pub struct PlayerInput<C> {
    pub frame: u64,
    pub player_id: u32,
    pub jump_pressed: bool,
    pub controls: C,
}

/// The game at one frame; `snapshot` carries the player positions and the
/// active spells.
pub struct GameState<S> {
    pub frame: u64,
    /// Hash of the atom world, for validation.
    pub atom_world_hash: u64,
    pub snapshot: S,
}

/// Recent inputs of both players.
pub struct InputBuffer<C> {
    pub local_inputs: VecDeque<PlayerInput<C>>,
    pub remote_inputs: VecDeque<PlayerInput<C>>,
    pub max_size: usize,
}

impl<C> Default for InputBuffer<C> {
    /// Empty, keeping one second of inputs at 60 frames per second.
    fn default() -> (r: Self)
        ensures
            r.local_inputs@.len() == 0,
            r.remote_inputs@.len() == 0,
            r.max_size == 60,
    {
        InputBuffer { local_inputs: VecDeque::new(), remote_inputs: VecDeque::new(), max_size: 60 }
    }
}

/// Recent game states to roll back to.
pub struct StateHistory<S> {
    pub states: VecDeque<GameState<S>>,
    pub max_states: usize,
}

impl<S> Default for StateHistory<S> {
    /// Empty, keeping 20 states.
    fn default() -> (r: Self)
        ensures
            r.states@.len() == 0,
            r.max_states == 20,
    {
        StateHistory { states: VecDeque::new(), max_states: 20 }
    }
}

/// What happens on the network.
pub enum NetworkEvent<C, S> {
    PlayerConnected { player_id: u32 },
    PlayerDisconnected { player_id: u32 },
    InputReceived { input: PlayerInput<C> },
    StateSync { state: GameState<S> },
}

/// The frame a rollback returns to: five frames back, stopping at 0.
pub open spec fn rollback_target(frame: u64) -> u64 {
    if frame >= 5 {
        (frame - 5) as u64
    } else {
        0
    }
}

/// Some stored state is of the given frame.
pub open spec fn has_frame<S>(states: Seq<GameState<S>>, frame: u64) -> bool {
    exists|i: int| 0 <= i < states.len() && (#[trigger] states[i]).frame == frame
}

/// Rolls back five frames when a state of that frame is stored, and returns
/// the frame rolled back to.
pub fn perform_rollback<S>(network: &mut NetworkManager, state_history: &StateHistory<S>) -> (r: Option<u64>)
    ensures
        has_frame(state_history.states@, rollback_target(old(network).current_frame)) ==> r == Some(
            rollback_target(old(network).current_frame),
        ) && final(network).current_frame == rollback_target(old(network).current_frame),
        !has_frame(state_history.states@, rollback_target(old(network).current_frame)) ==> r is None
            && final(network).current_frame == old(network).current_frame,
        final(network).connected == old(network).connected,
        final(network).is_host == old(network).is_host,
        final(network).remote_player_id == old(network).remote_player_id,
        final(network).local_player_id == old(network).local_player_id,
        final(network).input_delay == old(network).input_delay,
        final(network).rollback_window == old(network).rollback_window,
{
    let rollback_frames: u64 = 5;
    let target_frame = network.current_frame.saturating_sub(rollback_frames);
    let mut i: usize = 0;
    while i < state_history.states.len()
        invariant
            0 <= i <= state_history.states@.len(),
            target_frame == rollback_target(network.current_frame),
            network.current_frame == old(network).current_frame,
            *network == *old(network),
            forall|j: int| 0 <= j < i ==> (#[trigger] state_history.states@[j]).frame != target_frame,
        decreases state_history.states@.len() - i,
    {
        if state_history.states[i].frame == target_frame {
            network.current_frame = state_history.states[i].frame;
            return Some(target_frame);
        }
        i = i + 1;
    }
    None
}

/// The counter of simulated packets after one more, and what it triggers: a
/// simulated loss every 20th packet and a rollback every 100th.
pub struct NetworkTick {
    pub packet_lost: bool,
    pub rollback: Option<u64>,
}

/// Advances one frame while connected, counting one more simulated packet;
/// every 100th packet rolls back five frames when that state is stored.
pub fn network_update<S>(network: &mut NetworkManager, packet_counter: &mut u64, state_history: &StateHistory<S>) -> (r: Option<NetworkTick>)
    requires
        old(network).connected ==> old(network).current_frame < u64::MAX,
        old(network).connected ==> *old(packet_counter) < u64::MAX,
    ensures
        !old(network).connected ==> r is None && *final(network) == *old(network) && *final(packet_counter) == *old(packet_counter),
        old(network).connected ==> {
            let frame = (old(network).current_frame + 1) as u64;
            let counter = (*old(packet_counter) + 1) as u64;
            &&& *final(packet_counter) == counter
            &&& r matches Some(tick)
            &&& tick.packet_lost == (counter % 20 == 0)
            &&& if counter % 100 == 0 && has_frame(state_history.states@, rollback_target(frame)) {
                tick.rollback == Some(rollback_target(frame)) && final(network).current_frame == rollback_target(frame)
            } else {
                tick.rollback is None && final(network).current_frame == frame
            }
            &&& final(network).connected
        },
{
    if !network.connected {
        return None;
    }
    network.current_frame = network.current_frame + 1;
    *packet_counter = *packet_counter + 1;
    let packet_lost = *packet_counter % 20 == 0;
    let rollback = if *packet_counter % 100 == 0 {
        perform_rollback(network, state_history)
    } else {
        None
    };
    Some(NetworkTick { packet_lost, rollback })
}

/// Guesses the remote player's next input: the last one, a frame later.
pub fn predict_remote_input<C: Copy>(network: &NetworkManager, input_buffer: &mut InputBuffer<C>)
    requires
        network.connected && old(input_buffer).remote_inputs@.len() > 0 ==> old(input_buffer).remote_inputs@.last().frame
            < u64::MAX,
    ensures
        final(input_buffer).local_inputs@ == old(input_buffer).local_inputs@,
        final(input_buffer).max_size == old(input_buffer).max_size,
        !network.connected || old(input_buffer).remote_inputs@.len() == 0 ==> final(input_buffer).remote_inputs@
            == old(input_buffer).remote_inputs@,
        network.connected && old(input_buffer).remote_inputs@.len() > 0 ==> {
            let last = old(input_buffer).remote_inputs@.last();
            final(input_buffer).remote_inputs@ == old(input_buffer).remote_inputs@.push(
                PlayerInput { frame: (last.frame + 1) as u64, ..last },
            )
        },
{
    if !network.connected {
        return ;
    }
    let n = input_buffer.remote_inputs.len();
    if n > 0 {
        let mut predicted = input_buffer.remote_inputs[n - 1];
        predicted.frame = predicted.frame + 1;
        input_buffer.remote_inputs.push_back(predicted);
    }
}

/// The newest `max` entries of `s` (all of them when there are fewer).
pub open spec fn newest<T>(s: Seq<T>, max: nat) -> Seq<T> {
    if s.len() > max {
        s.subrange(s.len() - max, s.len() as int)
    } else {
        s
    }
}

/// What a handled event reports.
pub enum NetworkNotice {
    Connected(u32),
    Disconnected(u32),
    InputStored,
    StateSynced(u64),
}

/// Reacts to one network event: a connection records the remote player, a
/// disconnection drops the connection, a received input is kept among the
/// newest `max_size` remote inputs.
pub fn handle_network_event<C, S>(event: NetworkEvent<C, S>, network: &mut NetworkManager, input_buffer: &mut InputBuffer<C>) -> (r: NetworkNotice)
    ensures
        final(input_buffer).local_inputs@ == old(input_buffer).local_inputs@,
        final(input_buffer).max_size == old(input_buffer).max_size,
        final(network).current_frame == old(network).current_frame,
        match event {
            NetworkEvent::PlayerConnected { player_id } => {
                &&& final(network).connected
                &&& final(network).remote_player_id == player_id
                &&& final(input_buffer).remote_inputs@ == old(input_buffer).remote_inputs@
                &&& r == NetworkNotice::Connected(player_id)
            },
            NetworkEvent::PlayerDisconnected { player_id } => {
                &&& !final(network).connected
                &&& final(network).remote_player_id == old(network).remote_player_id
                &&& final(input_buffer).remote_inputs@ == old(input_buffer).remote_inputs@
                &&& r == NetworkNotice::Disconnected(player_id)
            },
            NetworkEvent::InputReceived { input } => {
                &&& *final(network) == *old(network)
                &&& final(input_buffer).remote_inputs@ == newest(
                    old(input_buffer).remote_inputs@.push(input),
                    old(input_buffer).max_size as nat,
                )
                &&& final(input_buffer).remote_inputs@.len() <= old(input_buffer).max_size
                &&& r == NetworkNotice::InputStored
            },
            NetworkEvent::StateSync { state } => {
                &&& *final(network) == *old(network)
                &&& final(input_buffer).remote_inputs@ == old(input_buffer).remote_inputs@
                &&& r == NetworkNotice::StateSynced(state.frame)
            },
        },
{
    match event {
        NetworkEvent::PlayerConnected { player_id } => {
            network.connected = true;
            network.remote_player_id = player_id;
            NetworkNotice::Connected(player_id)
        },
        NetworkEvent::PlayerDisconnected { player_id } => {
            network.connected = false;
            NetworkNotice::Disconnected(player_id)
        },
        NetworkEvent::InputReceived { input } => {
            input_buffer.remote_inputs.push_back(input);
            let ghost all = old(input_buffer).remote_inputs@.push(input);
            while input_buffer.remote_inputs.len() > input_buffer.max_size
                invariant
                    input_buffer.local_inputs@ == old(input_buffer).local_inputs@,
                    input_buffer.max_size == old(input_buffer).max_size,
                    all.len() >= input_buffer.remote_inputs@.len(),
                    input_buffer.remote_inputs@.len() >= input_buffer.max_size || input_buffer.remote_inputs@ == all,
                    input_buffer.remote_inputs@ == all.subrange(all.len() - input_buffer.remote_inputs@.len(), all.len() as int),
                decreases input_buffer.remote_inputs@.len(),
            {
                input_buffer.remote_inputs.pop_front();
            }
            assert(input_buffer.remote_inputs@ =~= newest(all, input_buffer.max_size as nat));
            NetworkNotice::InputStored
        },
        NetworkEvent::StateSync { state } => NetworkNotice::StateSynced(state.frame),
    }
}

/// The connect key, pressed while not connected, announces the remote
/// player joining: returns that player's id.
pub fn attempt_connection(network: &NetworkManager, connect_pressed: bool) -> (r: Option<u32>)
    ensures
        r == if connect_pressed && !network.connected {
            Some(network.remote_player_id)
        } else {
            None::<u32>
        },
{
    if connect_pressed && !network.connected {
        Some(network.remote_player_id)
    } else {
        None
    }
}

/// The disconnect key, pressed while connected, announces the remote player
/// leaving: returns that player's id.
pub fn disconnect(network: &NetworkManager, disconnect_pressed: bool) -> (r: Option<u32>)
    ensures
        r == if disconnect_pressed && network.connected {
            Some(network.remote_player_id)
        } else {
            None::<u32>
        },
{
    if disconnect_pressed && network.connected {
        Some(network.remote_player_id)
    } else {
        None
    }
}

/// Counts one more lockstep frame while connected; every 60th frame (once a
/// second) is returned to be reported.
pub fn deterministic_simulation(network: &NetworkManager, simulation_frame: &mut u64) -> (r: Option<u64>)
    requires
        network.connected ==> *old(simulation_frame) < u64::MAX,
    ensures
        !network.connected ==> *final(simulation_frame) == *old(simulation_frame) && r is None,
        network.connected ==> *final(simulation_frame) == *old(simulation_frame) + 1 && r == if *final(simulation_frame)
            % 60 == 0 {
            Some(*final(simulation_frame))
        } else {
            None::<u64>
        },
{
    if !network.connected {
        return None;
    }
    *simulation_frame = *simulation_frame + 1;
    if *simulation_frame % 60 == 0 {
        Some(*simulation_frame)
    } else {
        None
    }
}

} // verus!
