use noita_demo::network::{
    attempt_connection, deterministic_simulation, disconnect, handle_network_event, network_update, perform_rollback,
    predict_remote_input, GameState, InputBuffer, NetworkEvent, NetworkManager, NetworkNotice, PlayerInput, StateHistory,
};

type Event = NetworkEvent<(i8, i8), ()>;

fn input(frame: u64) -> PlayerInput<(i8, i8)> {
    PlayerInput { frame, player_id: 1, jump_pressed: false, controls: (1, 0) }
}

fn state(frame: u64) -> GameState<()> {
    GameState { frame, atom_world_hash: 0, snapshot: () }
}

#[test]
fn defaults() {
    let network = NetworkManager::default();
    assert!(network.is_host && !network.connected);
    assert_eq!((network.local_player_id, network.remote_player_id), (0, 1));
    assert_eq!((network.input_delay, network.rollback_window, network.current_frame), (3, 10, 0));
    let buffer: InputBuffer<(i8, i8)> = InputBuffer::default();
    assert_eq!(buffer.max_size, 60);
    assert!(buffer.local_inputs.is_empty() && buffer.remote_inputs.is_empty());
    let history: StateHistory<()> = StateHistory::default();
    assert_eq!(history.max_states, 20);
}

#[test]
fn nothing_happens_while_disconnected() {
    let mut network = NetworkManager::default();
    let mut counter = 7;
    let history: StateHistory<()> = StateHistory::default();
    assert!(network_update(&mut network, &mut counter, &history).is_none());
    assert_eq!((network.current_frame, counter), (0, 7));
}

#[test]
fn every_twentieth_packet_is_lost() {
    let mut network = NetworkManager::default();
    network.connected = true;
    let mut counter = 18;
    let history: StateHistory<()> = StateHistory::default();
    let tick = network_update(&mut network, &mut counter, &history).unwrap();
    assert!(!tick.packet_lost);
    let tick = network_update(&mut network, &mut counter, &history).unwrap();
    assert!(tick.packet_lost);
    assert_eq!(tick.rollback, None);
    assert_eq!((network.current_frame, counter), (2, 20));
}

#[test]
fn every_hundredth_packet_rolls_back_five_frames() {
    let mut network = NetworkManager::default();
    network.connected = true;
    network.current_frame = 49;
    let mut counter = 99;
    let mut history: StateHistory<()> = StateHistory::default();
    history.states.push_back(state(45));
    let tick = network_update(&mut network, &mut counter, &history).unwrap();
    assert_eq!(tick.rollback, Some(45));
    assert_eq!(network.current_frame, 45);
}

#[test]
fn rollback_needs_the_stored_state() {
    let mut network = NetworkManager::default();
    network.current_frame = 3;
    let mut history: StateHistory<()> = StateHistory::default();
    assert_eq!(perform_rollback(&mut network, &history), None);
    assert_eq!(network.current_frame, 3);
    history.states.push_back(state(0));
    assert_eq!(perform_rollback(&mut network, &history), Some(0));
    assert_eq!(network.current_frame, 0);
}

#[test]
fn prediction_repeats_the_last_remote_input() {
    let mut network = NetworkManager::default();
    let mut buffer: InputBuffer<(i8, i8)> = InputBuffer::default();
    buffer.remote_inputs.push_back(input(4));
    predict_remote_input(&network, &mut buffer);
    assert_eq!(buffer.remote_inputs.len(), 1);
    network.connected = true;
    predict_remote_input(&network, &mut buffer);
    assert_eq!(buffer.remote_inputs.len(), 2);
    assert_eq!(buffer.remote_inputs[1].frame, 5);
    assert_eq!(buffer.remote_inputs[1].controls, (1, 0));
}

#[test]
fn received_inputs_keep_only_the_newest() {
    let mut network = NetworkManager::default();
    let mut buffer: InputBuffer<(i8, i8)> = InputBuffer::default();
    buffer.max_size = 3;
    for frame in 0..5 {
        let notice = handle_network_event(Event::InputReceived { input: input(frame) }, &mut network, &mut buffer);
        assert!(matches!(notice, NetworkNotice::InputStored));
        assert!(buffer.remote_inputs.len() <= 3);
    }
    let frames: Vec<u64> = buffer.remote_inputs.iter().map(|i| i.frame).collect();
    assert_eq!(frames, vec![2, 3, 4]);
}

#[test]
fn connection_events() {
    let mut network = NetworkManager::default();
    let mut buffer: InputBuffer<(i8, i8)> = InputBuffer::default();
    let notice = handle_network_event(Event::PlayerConnected { player_id: 9 }, &mut network, &mut buffer);
    assert!(matches!(notice, NetworkNotice::Connected(9)));
    assert!(network.connected);
    assert_eq!(network.remote_player_id, 9);
    let notice = handle_network_event(Event::StateSync { state: state(12) }, &mut network, &mut buffer);
    assert!(matches!(notice, NetworkNotice::StateSynced(12)));
    let notice = handle_network_event(Event::PlayerDisconnected { player_id: 9 }, &mut network, &mut buffer);
    assert!(matches!(notice, NetworkNotice::Disconnected(9)));
    assert!(!network.connected);
    assert_eq!(network.remote_player_id, 9);
}

#[test]
fn connect_and_disconnect_keys() {
    let mut network = NetworkManager::default();
    assert_eq!(attempt_connection(&network, true), Some(1));
    assert_eq!(attempt_connection(&network, false), None);
    assert_eq!(disconnect(&network, true), None);
    network.connected = true;
    assert_eq!(attempt_connection(&network, true), None);
    assert_eq!(disconnect(&network, true), Some(1));
}

#[test]
fn lockstep_reports_once_a_second() {
    let mut network = NetworkManager::default();
    let mut frame = 58;
    assert_eq!(deterministic_simulation(&network, &mut frame), None);
    assert_eq!(frame, 58);
    network.connected = true;
    assert_eq!(deterministic_simulation(&network, &mut frame), None);
    assert_eq!(deterministic_simulation(&network, &mut frame), Some(60));
    assert_eq!(frame, 60);
}
