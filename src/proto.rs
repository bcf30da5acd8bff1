use vstd::prelude::*;

verus! {

/// The four-bit frame type of a WebSocket frame.
#[derive(Clone, Copy, Debug, PartialEq, Eq, Structural)]
pub enum OpCode {
    Continue,
    Text,
    Binary,
    Close,
    Ping,
    Pong,
    Bad,
}

/// The opcode that a raw four-bit value names.
pub open spec fn opcode_of(raw: u8) -> OpCode {
    if raw == 0 {
        OpCode::Continue
    } else if raw == 1 {
        OpCode::Text
    } else if raw == 2 {
        OpCode::Binary
    } else if raw == 8 {
        OpCode::Close
    } else if raw == 9 {
        OpCode::Ping
    } else if raw == 10 {
        OpCode::Pong
    } else {
        OpCode::Bad
    }
}

/// The wire value of an opcode; `Bad` has none of its own and is sent as a close.
pub open spec fn opcode_byte(op: OpCode) -> u8 {
    match op {
        OpCode::Continue => 0,
        OpCode::Text => 1,
        OpCode::Binary => 2,
        OpCode::Close => 8,
        OpCode::Ping => 9,
        OpCode::Pong => 10,
        OpCode::Bad => 8,
    }
}

impl OpCode {
    pub fn from_u8(raw: u8) -> (r: OpCode)
        ensures
            r == opcode_of(raw),
    {
        match raw {
            0 => OpCode::Continue,
            1 => OpCode::Text,
            2 => OpCode::Binary,
            8 => OpCode::Close,
            9 => OpCode::Ping,
            10 => OpCode::Pong,
            _ => OpCode::Bad,
        }
    }

    pub fn to_u8(self) -> (r: u8)
        ensures
            r == opcode_byte(self),
    {
        match self {
            OpCode::Continue => 0,
            OpCode::Text => 1,
            OpCode::Binary => 2,
            OpCode::Close => 8,
            OpCode::Ping => 9,
            OpCode::Pong => 10,
            OpCode::Bad => 8,
        }
    }
}

/// Status code carried by a close frame.
#[derive(Clone, Copy, Debug, PartialEq, Eq, Structural)]
pub enum CloseCode {
    Normal,
    Away,
    Protocol,
    Unsupported,
    Abnormal,
    Invalid,
    Policy,
    Size,
    Extension,
    Error,
    Restart,
    Again,
    Tls,
    Other(u16),
}

pub open spec fn close_code_of(raw: u16) -> CloseCode {
    if raw == 1000 {
        CloseCode::Normal
    } else if raw == 1001 {
        CloseCode::Away
    } else if raw == 1002 {
        CloseCode::Protocol
    } else if raw == 1003 {
        CloseCode::Unsupported
    } else if raw == 1006 {
        CloseCode::Abnormal
    } else if raw == 1007 {
        CloseCode::Invalid
    } else if raw == 1008 {
        CloseCode::Policy
    } else if raw == 1009 {
        CloseCode::Size
    } else if raw == 1010 {
        CloseCode::Extension
    } else if raw == 1011 {
        CloseCode::Error
    } else if raw == 1012 {
        CloseCode::Restart
    } else if raw == 1013 {
        CloseCode::Again
    } else if raw == 1015 {
        CloseCode::Tls
    } else {
        CloseCode::Other(raw)
    }
}

pub open spec fn close_code_value(c: CloseCode) -> u16 {
    match c {
        CloseCode::Normal => 1000,
        CloseCode::Away => 1001,
        CloseCode::Protocol => 1002,
        CloseCode::Unsupported => 1003,
        CloseCode::Abnormal => 1006,
        CloseCode::Invalid => 1007,
        CloseCode::Policy => 1008,
        CloseCode::Size => 1009,
        CloseCode::Extension => 1010,
        CloseCode::Error => 1011,
        CloseCode::Restart => 1012,
        CloseCode::Again => 1013,
        CloseCode::Tls => 1015,
        CloseCode::Other(v) => v,
    }
}

impl CloseCode {
    pub fn from_u16(raw: u16) -> (r: CloseCode)
        ensures
            r == close_code_of(raw),
    {
        match raw {
            1000 => CloseCode::Normal,
            1001 => CloseCode::Away,
            1002 => CloseCode::Protocol,
            1003 => CloseCode::Unsupported,
            1006 => CloseCode::Abnormal,
            1007 => CloseCode::Invalid,
            1008 => CloseCode::Policy,
            1009 => CloseCode::Size,
            1010 => CloseCode::Extension,
            1011 => CloseCode::Error,
            1012 => CloseCode::Restart,
            1013 => CloseCode::Again,
            1015 => CloseCode::Tls,
            _ => CloseCode::Other(raw),
        }
    }

    pub fn to_u16(self) -> (r: u16)
        ensures
            r == close_code_value(self),
    {
        match self {
            CloseCode::Normal => 1000,
            CloseCode::Away => 1001,
            CloseCode::Protocol => 1002,
            CloseCode::Unsupported => 1003,
            CloseCode::Abnormal => 1006,
            CloseCode::Invalid => 1007,
            CloseCode::Policy => 1008,
            CloseCode::Size => 1009,
            CloseCode::Extension => 1010,
            CloseCode::Error => 1011,
            CloseCode::Restart => 1012,
            CloseCode::Again => 1013,
            CloseCode::Tls => 1015,
            CloseCode::Other(v) => v,
        }
    }
}

/// Reason given with a close frame: a status code and an optional text.
#[derive(Clone, Debug, PartialEq, Eq)]
pub struct CloseReason {
    pub code: CloseCode,
    pub description: Option<String>,
}

impl CloseReason {
    /// A reason with a code and a description.
    pub fn new(code: CloseCode, description: &str) -> (r: CloseReason)
        ensures
            r.code == code,
            r.description.is_some(),
            r.description.unwrap()@ == description@,
    {
        CloseReason { code, description: Some(description.to_string()) }
    }

    /// A reason with a code alone.
    pub fn from_code(code: CloseCode) -> (r: CloseReason)
        ensures
            r.code == code,
            r.description.is_none(),
    {
        CloseReason { code, description: None }
    }
}

/// Ways in which a received frame breaks the protocol.
#[derive(Clone, Copy, Debug, PartialEq, Eq, Structural)]
pub enum ProtocolError {
    UnmaskedFrame,
    MaskedFrame,
    InvalidOpcode(u8),
    Overflow,
    InvalidLength(usize),
}

} // verus!
