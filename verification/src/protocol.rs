//! Byte-level encodings of the pen plotter's serial protocol.
//!
//! Only the encodings live here: the code that moves bytes over a serial
//! port is an external collaborator and consumes these functions.

use vstd::prelude::*;

verus! {

/// One drawing step of a queued instruction chain.
#[derive(Debug, Clone, Copy, PartialEq, Eq, Structural)]
pub enum SolvingCommand {
    Goto(u8, u8),
    PenUp,
    PenDown,
}

/// The bytes a command contributes to an instruction chain.
pub open spec fn command_bytes(c: SolvingCommand) -> Seq<u8> {
    match c {
        SolvingCommand::Goto(x, y) => seq![0u8, x, y],
        SolvingCommand::PenUp => seq![1u8],
        SolvingCommand::PenDown => seq![2u8],
    }
}

impl SolvingCommand {
    /// Append this command's wire encoding to `data`.
    pub fn as_bytes(&self, data: &mut Vec<u8>)
        ensures
            final(data)@ == old(data)@ + command_bytes(*self),
    {
        match self {
            SolvingCommand::Goto(x, y) => {
                data.push(0);
                data.push(*x);
                data.push(*y);
            },
            SolvingCommand::PenUp => data.push(1),
            SolvingCommand::PenDown => data.push(2),
        }
        proof {
            assert(data@ =~= old(data)@ + command_bytes(*self));
        }
    }
}

/// A motor opcode.
#[derive(Debug, Clone, Copy)]
pub enum MotorCommand {
    Ping,
    BeginHoming,
    GotoAbsolute,
    SetGridCoords,
    GotoGrid,
    InstructionChain,
    PenUp,
    PenDown,
    AutoPenupOn,
    AutoPenupOff,
}

/// The opcode byte each motor command sends on the wire.
pub open spec fn opcode(c: MotorCommand) -> u8 {
    match c {
        MotorCommand::Ping => 0,
        MotorCommand::BeginHoming => 1,
        MotorCommand::GotoAbsolute => 2,
        MotorCommand::SetGridCoords => 3,
        MotorCommand::GotoGrid => 4,
        MotorCommand::InstructionChain => 5,
        MotorCommand::PenUp => 6,
        MotorCommand::PenDown => 7,
        MotorCommand::AutoPenupOn => 8,
        MotorCommand::AutoPenupOff => 9,
    }
}

impl MotorCommand {
    /// The opcode byte sent on the wire.
    pub fn as_byte(&self) -> (b: u8)
        ensures
            b == opcode(*self),
    {
        match self {
            MotorCommand::Ping => 0,
            MotorCommand::BeginHoming => 1,
            MotorCommand::GotoAbsolute => 2,
            MotorCommand::SetGridCoords => 3,
            MotorCommand::GotoGrid => 4,
            MotorCommand::InstructionChain => 5,
            MotorCommand::PenUp => 6,
            MotorCommand::PenDown => 7,
            MotorCommand::AutoPenupOn => 8,
            MotorCommand::AutoPenupOff => 9,
        }
    }
}

/// A status byte read back from the motor.
#[derive(Debug, Clone, Copy, PartialEq, Eq, Structural)]
pub enum MotorResponse {
    Okay,
    Crashed,
    NeedToHome,
    NeedToCalibrate,
    Reset,
    Unknown(u8),
}

/// How a status byte decodes.
pub open spec fn response_of(value: u8) -> MotorResponse {
    if value == 0 {
        MotorResponse::Okay
    } else if value == 1 {
        MotorResponse::Crashed
    } else if value == 2 {
        MotorResponse::NeedToHome
    } else if value == 3 {
        MotorResponse::NeedToCalibrate
    } else if value == 0xFF {
        MotorResponse::Reset
    } else {
        MotorResponse::Unknown(value)
    }
}

impl MotorResponse {
    /// Whether the motor reported success.
    pub fn ok(self) -> (r: bool)
        ensures
            r <==> self is Okay,
    {
        self == MotorResponse::Okay
    }
}

impl From<u8> for MotorResponse {
    fn from(value: u8) -> (r: Self) {
        match value {
            0 => MotorResponse::Okay,
            1 => MotorResponse::Crashed,
            2 => MotorResponse::NeedToHome,
            3 => MotorResponse::NeedToCalibrate,
            0xFF => MotorResponse::Reset,
            x => MotorResponse::Unknown(x),
        }
    }
}

impl vstd::std_specs::convert::FromSpecImpl<u8> for MotorResponse {
    open spec fn obeys_from_spec() -> bool {
        true
    }

    open spec fn from_spec(value: u8) -> Self {
        response_of(value)
    }
}

} // verus!
