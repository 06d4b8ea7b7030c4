//! Plotter-side command plumbing: the messages a drawing session consists
//! of, the session state mirrored for a user interface, and the conversion
//! of a movement plan into wire commands.

use vstd::prelude::*;

use crate::pathfind::Instruction;
use crate::protocol::MotorResponse;
use crate::protocol::SolvingCommand;

verus! {

/// A request for the plotter driver.
pub enum MotorCommand {
    Wakeup,
    MoveTo(u32, u32),
    MoveToGrid(u8, u8),
    Home,
    Calibrate((u32, u32), (u32, u32), (u32, u32)),
    MotorExecute(Vec<Instruction>),
    PenUp,
    PenDown,
    SetAutoPenup(bool),
    SetSpeed(i32, i32),
}

/// What a user interface needs to know about the plotter connection.
pub struct MotorState {
    pub is_executing: bool,
    pub file_open: bool,
    pub connect_active: bool,
    pub last_response: MotorResponse,
    pub has_homed: bool,
    pub has_calibrated: bool,
    pub size: (u16, u16),
}

impl MotorState {
    /// The state before any connection was made.
    pub fn new() -> (r: Self)
        ensures
            !r.is_executing,
            !r.file_open,
            !r.connect_active,
            r.last_response is Okay,
            !r.has_homed,
            !r.has_calibrated,
            r.size == (0u16, 0u16),
    {
        Self {
            is_executing: false,
            file_open: false,
            connect_active: false,
            last_response: MotorResponse::Okay,
            has_homed: false,
            has_calibrated: false,
            size: (0, 0),
        }
    }
}

/// Where the pen logically stands after the first `k` instructions,
/// starting from the origin.
pub open spec fn loc_after(cmds: Seq<Instruction>, k: int) -> (int, int)
    decreases k,
{
    if k <= 0 {
        (0, 0)
    } else {
        let prev = loc_after(cmds, k - 1);
        match cmds[k - 1] {
            Instruction::Up => (prev.0, prev.1 - 1),
            Instruction::Down => (prev.0, prev.1 + 1),
            Instruction::Left => (prev.0 - 1, prev.1),
            Instruction::Right => (prev.0 + 1, prev.1),
            Instruction::Goto(x, y) => (x as int, y as int),
            _ => prev,
        }
    }
}

/// Every position the plan reaches fits the `u8` coordinates of the wire
/// commands.
pub open spec fn walk_in_range(cmds: Seq<Instruction>) -> bool {
    forall|k: int|
        0 <= k <= cmds.len() ==> {
            let p = #[trigger] loc_after(cmds, k);
            0 <= p.0 <= 255 && 0 <= p.1 <= 255
        }
}

/// What processing instruction `k` emits, before the instruction itself is
/// applied: on a change of instruction, a jump to the position reached so
/// far, framed by a pen lift and drop when the run just ended was a jump.
pub open spec fn emission(cmds: Seq<Instruction>, k: int) -> Seq<SolvingCommand> {
    if k <= 0 || cmds[k - 1] == cmds[k] {
        Seq::<SolvingCommand>::empty()
    } else {
        let loc = loc_after(cmds, k);
        let g = SolvingCommand::Goto(loc.0 as u8, loc.1 as u8);
        if cmds[k - 1] is Goto {
            seq![SolvingCommand::PenUp, g, SolvingCommand::PenDown]
        } else {
            seq![g]
        }
    }
}

/// The emissions of the first `k` processing steps, in order.
pub open spec fn convert_prefix(cmds: Seq<Instruction>, k: int) -> Seq<SolvingCommand>
    decreases k,
{
    if k <= 0 {
        Seq::<SolvingCommand>::empty()
    } else {
        convert_prefix(cmds, k - 1) + emission(cmds, k - 1)
    }
}

/// The full conversion: every step's emission, then a final jump to the
/// last position and a pen lift.
pub open spec fn convert_spec(cmds: Seq<Instruction>) -> Seq<SolvingCommand> {
    let fin = loc_after(cmds, cmds.len() as int);
    convert_prefix(cmds, cmds.len() as int) + seq![
        SolvingCommand::Goto(fin.0 as u8, fin.1 as u8),
        SolvingCommand::PenUp,
    ]
}

/// Collapse a movement plan into wire commands: runs of equal instructions
/// become a single jump to the run's end, and jumps are framed by pen
/// lifts.  Pen control and view instructions do not move the pen.
#[verifier::loop_isolation(false)]
pub fn convert_commands(cmds: &Vec<Instruction>) -> (r: Vec<SolvingCommand>)
    requires
        walk_in_range(cmds@),
    ensures
        r@ == convert_spec(cmds@),
{
    let mut current_loc: (u8, u8) = (0, 0);
    let mut prev_instr: Option<Instruction> = None;
    let mut new_commands: Vec<SolvingCommand> = Vec::new();
    let mut i: usize = 0;
    while i < cmds.len()
        invariant
            i <= cmds@.len(),
            (current_loc.0 as int, current_loc.1 as int) == loc_after(cmds@, i as int),
            prev_instr == (if i == 0 {
                Option::<Instruction>::None
            } else {
                Option::Some(cmds@[i as int - 1])
            }),
            new_commands@ == convert_prefix(cmds@, i as int),
        decreases cmds@.len() - i,
    {
        let cmd = cmds[i];
        match prev_instr {
            Option::Some(prev) => {
                if prev != cmd {
                    if matches!(prev, Instruction::Goto(_, _)) {
                        new_commands.push(SolvingCommand::PenUp);
                    }
                    new_commands.push(SolvingCommand::Goto(current_loc.0, current_loc.1));
                    if matches!(prev, Instruction::Goto(_, _)) {
                        new_commands.push(SolvingCommand::PenDown);
                    }
                }
            },
            Option::None => {},
        }
        proof {
            assert(new_commands@ =~= convert_prefix(cmds@, i as int) + emission(
                cmds@,
                i as int,
            ));
            assert(new_commands@ =~= convert_prefix(cmds@, i as int + 1));
            let p = loc_after(cmds@, i as int + 1);
            assert(0 <= p.0 <= 255 && 0 <= p.1 <= 255);
        }
        match cmd {
            Instruction::Up => {
                current_loc.1 = current_loc.1 - 1;
            },
            Instruction::Down => {
                current_loc.1 = current_loc.1 + 1;
            },
            Instruction::Left => {
                current_loc.0 = current_loc.0 - 1;
            },
            Instruction::Right => {
                current_loc.0 = current_loc.0 + 1;
            },
            Instruction::Goto(x, y) => {
                current_loc = (x, y);
            },
            _ => {},
        }
        prev_instr = Some(cmd);
        i += 1;
    }
    new_commands.push(SolvingCommand::Goto(current_loc.0, current_loc.1));
    new_commands.push(SolvingCommand::PenUp);
    proof {
        assert(new_commands@ =~= convert_spec(cmds@));
    }
    new_commands
}

/// Fold one executed command's response into the session state.
///
/// The command is done, so the state is no longer executing and remembers
/// the response.  On success, a homing command marks the plotter homed and
/// publishes the detected size, and a calibration command marks it
/// calibrated; a reset response drops both marks and asks the caller to
/// acknowledge the reset on the wire.
pub fn handle_response(
    state: &mut MotorState,
    command: &MotorCommand,
    response: MotorResponse,
    new_size: Option<(u16, u16)>,
) -> (need_ack: bool)
    ensures
        final(state).last_response == response,
        !final(state).is_executing,
        final(state).file_open == old(state).file_open,
        final(state).connect_active == old(state).connect_active,
        final(state).size == (if response is Okay {
            match new_size {
                Some(s) => s,
                None => old(state).size,
            }
        } else {
            old(state).size
        }),
        final(state).has_homed == (if response is Okay {
            old(state).has_homed || command is Home
        } else if response is Reset {
            false
        } else {
            old(state).has_homed
        }),
        final(state).has_calibrated == (if response is Okay {
            old(state).has_calibrated || command is Calibrate
        } else if response is Reset {
            false
        } else {
            old(state).has_calibrated
        }),
        need_ack <==> response is Reset,
{
    state.last_response = response;
    state.is_executing = false;
    if response.ok() {
        match new_size {
            Option::Some(s) => {
                state.size = s;
            },
            Option::None => {},
        }
        match command {
            MotorCommand::Calibrate(_, _, _) => {
                state.has_calibrated = true;
            },
            MotorCommand::Home => {
                state.has_homed = true;
            },
            _ => {},
        }
        false
    } else if matches!(response, MotorResponse::Reset) {
        state.has_homed = false;
        state.has_calibrated = false;
        true
    } else {
        false
    }
}

} // verus!
