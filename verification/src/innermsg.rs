//! The inner message envelope exchanged between a client, a server and
//! the node's internal components, with its routing enums.
//!
//! Each enum mirrors one wire field: a small integer on the wire, a
//! stable name in configuration and logs. The conversions in both
//! directions are exact and total over the named values.

use vstd::prelude::*;
use vstd::string::StrSliceExecFns;

verus! {

/// Who sent the message.
#[derive(Debug, Clone, Copy, PartialEq, Eq, Hash, Structural)]
pub enum Identity {
    Client,
    Server,
    Init,
}

/// What the sender asks for.
#[derive(Debug, Clone, Copy, PartialEq, Eq, Hash, Structural)]
pub enum Action {
    Read,
    Write,
    ReadReply,
    WriteReply,
}

/// How a message is to be forwarded.
#[derive(Debug, Clone, Copy, PartialEq, Eq, Hash, Structural)]
pub enum PushType {
    Direct,
    Broadcast,
}

/// The embedded peer-to-peer message: its kind tag and serialized body.
#[derive(Debug, Clone)]
pub struct ZMessage {
    /// The wire tag of the embedded message's kind.
    pub kind: i32,
    /// The embedded message's serialized body.
    pub data: Vec<u8>,
}

/// The inner message envelope: who sends, what they ask, how to forward,
/// the embedded message, and any public keys and signatures attached for
/// verification or threshold signing.
#[derive(Debug, Clone)]
pub struct Innermsg {
    pub identity: i32,
    pub action: i32,
    pub push_type: i32,
    pub message: Option<ZMessage>,
    pub public_keys: Vec<Vec<u8>>,
    pub signatures: Vec<Vec<u8>>,
}

/// Whether two strings hold the same characters.
fn str_eq(a: &str, b: &str) -> (r: bool)
    ensures
        r == (a@ == b@),
{
    let n = a.unicode_len();
    if n != b.unicode_len() {
        return false;
    }
    let mut i: usize = 0;
    while i < n
        invariant
            n == a@.len(),
            n == b@.len(),
            0 <= i <= n,
            forall|j: int| 0 <= j < i ==> a@[j] == b@[j],
        decreases n - i,
    {
        if a.get_char(i) != b.get_char(i) {
            return false;
        }
        i += 1;
    }
    proof {
        assert(a@ =~= b@);
    }
    true
}

impl Identity {
    /// The stable field name this value carries in the wire schema.
    pub open spec fn str_name(self) -> Seq<char> {
        match self {
            Identity::Client => "IDENTITY_CLIENT"@,
            Identity::Server => "IDENTITY_SERVER"@,
            Identity::Init => "IDENTITY_INIT"@,
        }
    }

    /// The wire tag of this value.
    pub open spec fn spec_i32(self) -> i32 {
        match self {
            Identity::Client => 0,
            Identity::Server => 1,
            Identity::Init => 2,
        }
    }

    /// String value of the enum field names used in the wire schema.
    pub fn as_str_name(&self) -> (r: &'static str)
        ensures
            r@ == self.str_name(),
    {
        match self {
            Identity::Client => "IDENTITY_CLIENT",
            Identity::Server => "IDENTITY_SERVER",
            Identity::Init => "IDENTITY_INIT",
        }
    }

    /// Creates an enum value from a field name used in the wire schema.
    pub fn from_str_name(value: &str) -> (r: Option<Self>)
        ensures
            r == (if value@ == "IDENTITY_CLIENT"@ {
                Some(Identity::Client)
            } else if value@ == "IDENTITY_SERVER"@ {
                Some(Identity::Server)
            } else if value@ == "IDENTITY_INIT"@ {
                Some(Identity::Init)
            } else {
                None::<Identity>
            }),
    {
        if str_eq(value, "IDENTITY_CLIENT") {
            Some(Identity::Client)
        } else if str_eq(value, "IDENTITY_SERVER") {
            Some(Identity::Server)
        } else if str_eq(value, "IDENTITY_INIT") {
            Some(Identity::Init)
        } else {
            None
        }
    }

    /// The wire tag of this value.
    pub fn as_i32(&self) -> (r: i32)
        ensures
            r == self.spec_i32(),
    {
        match self {
            Identity::Client => 0,
            Identity::Server => 1,
            Identity::Init => 2,
        }
    }

    /// The value a wire tag stands for.
    pub fn from_i32(tag: i32) -> (r: Option<Self>)
        ensures
            r == (if tag == 0 {
                Some(Identity::Client)
            } else if tag == 1 {
                Some(Identity::Server)
            } else if tag == 2 {
                Some(Identity::Init)
            } else {
                None::<Identity>
            }),
            r matches Some(v) ==> v.spec_i32() == tag,
    {
        if tag == 0 {
            Some(Identity::Client)
        } else if tag == 1 {
            Some(Identity::Server)
        } else if tag == 2 {
            Some(Identity::Init)
        } else {
            None
        }
    }
}

impl Action {
    /// The stable field name this value carries in the wire schema.
    pub open spec fn str_name(self) -> Seq<char> {
        match self {
            Action::Read => "ACTION_READ"@,
            Action::Write => "ACTION_WRITE"@,
            Action::ReadReply => "ACTION_READ_REPLY"@,
            Action::WriteReply => "ACTION_WRITE_REPLY"@,
        }
    }

    /// The wire tag of this value.
    pub open spec fn spec_i32(self) -> i32 {
        match self {
            Action::Read => 0,
            Action::Write => 1,
            Action::ReadReply => 2,
            Action::WriteReply => 3,
        }
    }

    /// String value of the enum field names used in the wire schema.
    pub fn as_str_name(&self) -> (r: &'static str)
        ensures
            r@ == self.str_name(),
    {
        match self {
            Action::Read => "ACTION_READ",
            Action::Write => "ACTION_WRITE",
            Action::ReadReply => "ACTION_READ_REPLY",
            Action::WriteReply => "ACTION_WRITE_REPLY",
        }
    }

    /// Creates an enum value from a field name used in the wire schema.
    pub fn from_str_name(value: &str) -> (r: Option<Self>)
        ensures
            r == (if value@ == "ACTION_READ"@ {
                Some(Action::Read)
            } else if value@ == "ACTION_WRITE"@ {
                Some(Action::Write)
            } else if value@ == "ACTION_READ_REPLY"@ {
                Some(Action::ReadReply)
            } else if value@ == "ACTION_WRITE_REPLY"@ {
                Some(Action::WriteReply)
            } else {
                None::<Action>
            }),
    {
        if str_eq(value, "ACTION_READ") {
            Some(Action::Read)
        } else if str_eq(value, "ACTION_WRITE") {
            Some(Action::Write)
        } else if str_eq(value, "ACTION_READ_REPLY") {
            Some(Action::ReadReply)
        } else if str_eq(value, "ACTION_WRITE_REPLY") {
            Some(Action::WriteReply)
        } else {
            None
        }
    }

    /// The wire tag of this value.
    pub fn as_i32(&self) -> (r: i32)
        ensures
            r == self.spec_i32(),
    {
        match self {
            Action::Read => 0,
            Action::Write => 1,
            Action::ReadReply => 2,
            Action::WriteReply => 3,
        }
    }

    /// The value a wire tag stands for.
    pub fn from_i32(tag: i32) -> (r: Option<Self>)
        ensures
            r == (if tag == 0 {
                Some(Action::Read)
            } else if tag == 1 {
                Some(Action::Write)
            } else if tag == 2 {
                Some(Action::ReadReply)
            } else if tag == 3 {
                Some(Action::WriteReply)
            } else {
                None::<Action>
            }),
            r matches Some(v) ==> v.spec_i32() == tag,
    {
        if tag == 0 {
            Some(Action::Read)
        } else if tag == 1 {
            Some(Action::Write)
        } else if tag == 2 {
            Some(Action::ReadReply)
        } else if tag == 3 {
            Some(Action::WriteReply)
        } else {
            None
        }
    }
}

impl PushType {
    /// The stable field name this value carries in the wire schema.
    pub open spec fn str_name(self) -> Seq<char> {
        match self {
            PushType::Direct => "PUSH_TYPE_DIRECT"@,
            PushType::Broadcast => "PUSH_TYPE_BROADCAST"@,
        }
    }

    /// The wire tag of this value.
    pub open spec fn spec_i32(self) -> i32 {
        match self {
            PushType::Direct => 0,
            PushType::Broadcast => 1,
        }
    }

    /// String value of the enum field names used in the wire schema.
    pub fn as_str_name(&self) -> (r: &'static str)
        ensures
            r@ == self.str_name(),
    {
        match self {
            PushType::Direct => "PUSH_TYPE_DIRECT",
            PushType::Broadcast => "PUSH_TYPE_BROADCAST",
        }
    }

    /// Creates an enum value from a field name used in the wire schema.
    pub fn from_str_name(value: &str) -> (r: Option<Self>)
        ensures
            r == (if value@ == "PUSH_TYPE_DIRECT"@ {
                Some(PushType::Direct)
            } else if value@ == "PUSH_TYPE_BROADCAST"@ {
                Some(PushType::Broadcast)
            } else {
                None::<PushType>
            }),
    {
        if str_eq(value, "PUSH_TYPE_DIRECT") {
            Some(PushType::Direct)
        } else if str_eq(value, "PUSH_TYPE_BROADCAST") {
            Some(PushType::Broadcast)
        } else {
            None
        }
    }

    /// The wire tag of this value.
    pub fn as_i32(&self) -> (r: i32)
        ensures
            r == self.spec_i32(),
    {
        match self {
            PushType::Direct => 0,
            PushType::Broadcast => 1,
        }
    }

    /// The value a wire tag stands for.
    pub fn from_i32(tag: i32) -> (r: Option<Self>)
        ensures
            r == (if tag == 0 {
                Some(PushType::Direct)
            } else if tag == 1 {
                Some(PushType::Broadcast)
            } else {
                None::<PushType>
            }),
            r matches Some(v) ==> v.spec_i32() == tag,
    {
        if tag == 0 {
            Some(PushType::Direct)
        } else if tag == 1 {
            Some(PushType::Broadcast)
        } else {
            None
        }
    }
}

} // verus!
