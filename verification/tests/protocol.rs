use freeflow::camera::{adjust_brightness, CameraSettings};
use freeflow::classify::DotLocationInfo;
use freeflow::control::{convert_commands, handle_response, MotorCommand as Request, MotorState};
use freeflow::pathfind::Instruction;
use freeflow::protocol::{MotorCommand, MotorResponse, SolvingCommand};

#[test]
fn solving_commands_encode_exactly() {
    let mut data = Vec::new();
    SolvingCommand::Goto(3, 4).as_bytes(&mut data);
    SolvingCommand::PenUp.as_bytes(&mut data);
    SolvingCommand::PenDown.as_bytes(&mut data);
    assert_eq!(data, vec![0, 3, 4, 1, 2]);
}

#[test]
fn motor_opcodes_are_stable() {
    assert_eq!(MotorCommand::Ping.as_byte(), 0);
    assert_eq!(MotorCommand::BeginHoming.as_byte(), 1);
    assert_eq!(MotorCommand::GotoAbsolute.as_byte(), 2);
    assert_eq!(MotorCommand::SetGridCoords.as_byte(), 3);
    assert_eq!(MotorCommand::GotoGrid.as_byte(), 4);
    assert_eq!(MotorCommand::InstructionChain.as_byte(), 5);
    assert_eq!(MotorCommand::PenUp.as_byte(), 6);
    assert_eq!(MotorCommand::PenDown.as_byte(), 7);
    assert_eq!(MotorCommand::AutoPenupOn.as_byte(), 8);
    assert_eq!(MotorCommand::AutoPenupOff.as_byte(), 9);
}

#[test]
fn responses_decode_every_status_byte() {
    assert_eq!(MotorResponse::from(0u8), MotorResponse::Okay);
    assert_eq!(MotorResponse::from(1u8), MotorResponse::Crashed);
    assert_eq!(MotorResponse::from(2u8), MotorResponse::NeedToHome);
    assert_eq!(MotorResponse::from(3u8), MotorResponse::NeedToCalibrate);
    assert_eq!(MotorResponse::from(255u8), MotorResponse::Reset);
    assert_eq!(MotorResponse::from(7u8), MotorResponse::Unknown(7));
    assert!(MotorResponse::from(0u8).ok());
    assert!(!MotorResponse::from(4u8).ok());
}

#[test]
fn fresh_motor_state_is_disconnected() {
    let s = MotorState::new();
    assert!(!s.is_executing);
    assert!(!s.file_open);
    assert!(!s.connect_active);
    assert_eq!(s.last_response, MotorResponse::Okay);
    assert!(!s.has_homed);
    assert!(!s.has_calibrated);
    assert_eq!(s.size, (0, 0));
}

#[test]
fn runs_collapse_into_single_jumps() {
    let plan = vec![
        Instruction::Goto(1, 1),
        Instruction::Right,
        Instruction::Right,
        Instruction::Down,
    ];
    let commands = convert_commands(&plan);
    assert_eq!(
        commands,
        vec![
            SolvingCommand::PenUp,
            SolvingCommand::Goto(1, 1),
            SolvingCommand::PenDown,
            SolvingCommand::Goto(3, 1),
            SolvingCommand::Goto(3, 2),
            SolvingCommand::PenUp,
        ]
    );
}

#[test]
fn empty_plan_homes_and_lifts() {
    let commands = convert_commands(&Vec::new());
    assert_eq!(
        commands,
        vec![SolvingCommand::Goto(0, 0), SolvingCommand::PenUp]
    );
}

#[test]
fn consecutive_jumps_emit_pen_control() {
    let plan = vec![Instruction::Goto(2, 2), Instruction::Goto(4, 4)];
    let commands = convert_commands(&plan);
    assert_eq!(
        commands,
        vec![
            SolvingCommand::PenUp,
            SolvingCommand::Goto(2, 2),
            SolvingCommand::PenDown,
            SolvingCommand::Goto(4, 4),
            SolvingCommand::PenUp,
        ]
    );
}

#[test]
fn responses_fold_into_session_state() {
    let mut state = MotorState::new();
    state.is_executing = true;

    // a successful homing publishes the size and the homed mark
    let ack = handle_response(
        &mut state,
        &Request::Home,
        MotorResponse::Okay,
        Some((120, 80)),
    );
    assert!(!ack);
    assert!(!state.is_executing);
    assert!(state.has_homed);
    assert!(!state.has_calibrated);
    assert_eq!(state.size, (120, 80));
    assert_eq!(state.last_response, MotorResponse::Okay);

    // a successful calibration adds the calibrated mark
    let ack = handle_response(
        &mut state,
        &Request::Calibrate((0, 0), (9, 0), (0, 9)),
        MotorResponse::Okay,
        None,
    );
    assert!(!ack);
    assert!(state.has_homed && state.has_calibrated);

    // a reset clears both marks and must be acknowledged
    let ack = handle_response(&mut state, &Request::PenUp, MotorResponse::Reset, None);
    assert!(ack);
    assert!(!state.has_homed && !state.has_calibrated);
    assert_eq!(state.last_response, MotorResponse::Reset);

    // any other failure only records the response
    state.has_homed = true;
    let ack = handle_response(&mut state, &Request::PenUp, MotorResponse::Crashed, None);
    assert!(!ack);
    assert!(state.has_homed);
    assert_eq!(state.last_response, MotorResponse::Crashed);
}

#[test]
fn brightness_search_narrows_until_solved() {
    let mut settings = CameraSettings {
        dot_locations: DotLocationInfo {
            point_locations: vec![],
            dot_size: 10,
            brightness_thresh: 200,
        },
        is_actually_solved: false,
        is_auto_adjusting_brightness: true,
        path: None,
        available_cams: (Vec::new(), Vec::new()),
        is_camera_feed: false,
    };

    // unsolved frames walk the threshold down one unit at a time
    adjust_brightness(&mut settings, false);
    assert_eq!(settings.dot_locations.brightness_thresh, 199);
    assert!(settings.is_auto_adjusting_brightness);

    // the first solved frame backs off by 20 and ends the search
    adjust_brightness(&mut settings, true);
    assert_eq!(settings.dot_locations.brightness_thresh, 179);
    assert!(!settings.is_auto_adjusting_brightness);

    // once the search is over nothing changes any more
    adjust_brightness(&mut settings, false);
    adjust_brightness(&mut settings, true);
    assert_eq!(settings.dot_locations.brightness_thresh, 179);

    // below the floor the search gives up instead of going lower
    settings.is_auto_adjusting_brightness = true;
    settings.dot_locations.brightness_thresh = 19;
    adjust_brightness(&mut settings, false);
    assert_eq!(settings.dot_locations.brightness_thresh, 19);
    assert!(!settings.is_auto_adjusting_brightness);
}
