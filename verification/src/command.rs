//! The command model: user commands and internal net-commands, derived from
//! decoded wire objects.
//!
//! A user command is an array whose head is a simple string naming the
//! operation (`get`, `set` or `remove`); its arguments may arrive as simple
//! strings or as non-nil bulk strings holding UTF-8 text.  The one
//! net-command, `leader`, upgrades a follower connection when it carries the
//! cluster password.

use vstd::prelude::*;

verus! {

use vstd::string::StringExecFns;
use vstd::utf8::{valid_utf8, decode_utf8};
use crate::object::{Object, ObjectV, copy_bytes, string_from_utf8};

/// A validated user intent.
#[derive(Debug)]
pub enum Command {
    Get(String),
    Put(String, String),
    Remove(String),
}

/// The mathematical shape of a user command.
pub ghost enum CommandV {
    Get(Seq<char>),
    Put(Seq<char>, Seq<char>),
    Remove(Seq<char>),
}

impl View for Command {
    type V = CommandV;

    open spec fn view(&self) -> CommandV {
        match self {
            Command::Get(k) => CommandV::Get(k@),
            Command::Put(k, v) => CommandV::Put(k@, v@),
            Command::Remove(k) => CommandV::Remove(k@),
        }
    }
}

/// Whether a command may change the store when executed.
pub open spec fn spec_possibly_dirty(c: CommandV) -> bool {
    !(c is Get)
}

impl Command {
    /// Whether this command may mutate the store: `set` and `remove` may,
    /// `get` may not.
    pub fn possibly_dirty(&self) -> (r: bool)
        ensures
            r == spec_possibly_dirty(self@),
    {
        match self {
            Command::Get(_) => false,
            Command::Put(_, _) => true,
            Command::Remove(_) => true,
        }
    }
}

/// The text an object yields when used as a command argument: the payload of
/// a simple string, or the decoded UTF-8 text of a non-nil bulk string.
pub open spec fn arg_string(v: ObjectV) -> Option<Seq<char>> {
    match v {
        ObjectV::SimpleString(s) => Some(s),
        ObjectV::BulkString(Some(b)) => if valid_utf8(b) {
            Some(decode_utf8(b))
        } else {
            None
        },
        _ => None,
    }
}

/// The command named by an object, if it is a well-shaped command array.
pub open spec fn command_of(v: ObjectV) -> Option<CommandV> {
    match v {
        ObjectV::Array(objs) => if objs.len() == 2 && objs[0] == ObjectV::SimpleString("get"@)
            && arg_string(objs[1]) is Some {
            Some(CommandV::Get(arg_string(objs[1]).unwrap()))
        } else if objs.len() == 3 && objs[0] == ObjectV::SimpleString("set"@) && arg_string(
            objs[1],
        ) is Some && arg_string(objs[2]) is Some {
            Some(
                CommandV::Put(arg_string(objs[1]).unwrap(), arg_string(objs[2]).unwrap()),
            )
        } else if objs.len() == 2 && objs[0] == ObjectV::SimpleString("remove"@) && arg_string(
            objs[1],
        ) is Some {
            Some(CommandV::Remove(arg_string(objs[1]).unwrap()))
        } else {
            None
        },
        _ => None,
    }
}

/// The text of an argument object, or a validation error.
pub fn get_string(obj: &Object) -> (r: Result<String, String>)
    ensures
        match r {
            Ok(s) => arg_string(obj@) == Some(s@),
            Err(e) => arg_string(obj@) is None && e@ == "Unsupported type"@,
        },
{
    match obj {
        Object::SimpleString(s) => Ok(s.clone()),
        Object::BulkString(Some(b)) => {
            let copy = copy_bytes(b);
            match string_from_utf8(copy) {
                Some(s) => Ok(s),
                None => Err(String::from_str("Unsupported type")),
            }
        },
        _ => Err(String::from_str("Unsupported type")),
    }
}

impl Command {
    /// The command an object names, or a description of why it is not one.
    pub fn try_from(obj: Object) -> (r: Result<Command, String>)
        ensures
            match r {
                Ok(c) => command_of(obj@) == Some(c@),
                Err(_) => command_of(obj@) is None,
            },
    {
        match obj {
            Object::Array(vec) => Command::try_from_vec(vec),
            _ => Err(String::from_str("Object is not a valid Command")),
        }
    }

    /// The command an array of objects names.
    pub fn try_from_vec(vec: Vec<Object>) -> (r: Result<Command, String>)
        ensures
            match r {
                Ok(c) => command_of(ObjectV::Array(crate::object::view_objects(vec@))) == Some(
                    c@,
                ),
                Err(_) => command_of(ObjectV::Array(crate::object::view_objects(vec@))) is None,
            },
    {
        proof {
            crate::object::lemma_view_objects(vec@);
        }
        if vec.is_empty() {
            return Err(String::from_str("Empty array object"));
        }
        let name: &String = match &vec[0] {
            Object::SimpleString(s) => s,
            _ => {
                return Err(String::from_str("Unknown command"));
            },
        };
        let arity: usize = vec.len() - 1;
        proof {
            reveal_strlit("get");
            reveal_strlit("set");
            reveal_strlit("remove");
        }
        if name.eq(&String::from_str("get")) && arity == 1 {
            match get_string(&vec[1]) {
                Ok(k) => Ok(Command::Get(k)),
                Err(e) => Err(e),
            }
        } else if name.eq(&String::from_str("set")) && arity == 2 {
            match get_string(&vec[1]) {
                Ok(k) => match get_string(&vec[2]) {
                    Ok(v) => Ok(Command::Put(k, v)),
                    Err(e) => Err(e),
                },
                Err(e) => Err(e),
            }
        } else if name.eq(&String::from_str("remove")) && arity == 1 {
            match get_string(&vec[1]) {
                Ok(k) => Ok(Command::Remove(k)),
                Err(e) => Err(e),
            }
        } else {
            Err(String::from_str("Unknown command"))
        }
    }
}

/// An internal control message between cluster nodes.
#[derive(Debug)]
pub enum NetCommand {
    Leader(String),
}

/// Why an object was not accepted as a net-command.
pub enum NetCommandError {
    Invalid,
    NotANetCommand,
}

/// The mathematical outcome of reading an object as a net-command.
pub ghost enum NetOut {
    Leader(Seq<char>),
    Invalid,
    NotANetCommand,
}

/// The net-command an object names: a `leader` array with the password as a
/// simple string.  A `leader` array of the right length whose password is
/// not a simple string is malformed; anything else is not a net-command.
pub open spec fn net_command_of(v: ObjectV) -> NetOut {
    match v {
        ObjectV::Array(objs) => if objs.len() == 2 && objs[0] == ObjectV::SimpleString(
            "leader"@,
        ) {
            match objs[1] {
                ObjectV::SimpleString(pass) => NetOut::Leader(pass),
                _ => NetOut::Invalid,
            }
        } else {
            NetOut::NotANetCommand
        },
        _ => NetOut::NotANetCommand,
    }
}

impl NetCommand {
    /// The net-command an object names, or why it names none.
    pub fn try_from(obj: &Object) -> (r: Result<NetCommand, NetCommandError>)
        ensures
            match r {
                Ok(nc) => match nc {
                    NetCommand::Leader(p) => net_command_of(obj@) == NetOut::Leader(p@),
                },
                Err(NetCommandError::Invalid) => net_command_of(obj@) is Invalid,
                Err(NetCommandError::NotANetCommand) => net_command_of(obj@) is NotANetCommand,
            },
    {
        proof {
            reveal_strlit("leader");
        }
        match obj {
            Object::Array(objs) => {
                proof {
                    crate::object::lemma_view_objects(objs@);
                }
                if objs.len() != 2 {
                    return Err(NetCommandError::NotANetCommand);
                }
                let name: &String = match &objs[0] {
                    Object::SimpleString(s) => s,
                    _ => {
                        return Err(NetCommandError::NotANetCommand);
                    },
                };
                if name.eq(&String::from_str("leader")) {
                    match &objs[1] {
                        Object::SimpleString(pass) => Ok(NetCommand::Leader(pass.clone())),
                        _ => Err(NetCommandError::Invalid),
                    }
                } else {
                    Err(NetCommandError::NotANetCommand)
                }
            },
            _ => Err(NetCommandError::NotANetCommand),
        }
    }

    /// The wire object that carries this net-command.
    pub fn into_object(self) -> (r: Object)
        ensures
            match self {
                NetCommand::Leader(p) => r@ == ObjectV::Array(
                    seq![
                        ObjectV::SimpleString("leader"@),
                        ObjectV::SimpleString(p@),
                    ],
                ),
            },
    {
        match self {
            NetCommand::Leader(s) => {
                let ghost pv = s@;
                let mut objs: Vec<Object> = Vec::new();
                objs.push(Object::SimpleString(String::from_str("leader")));
                objs.push(Object::SimpleString(s));
                proof {
                    crate::object::lemma_view_objects(objs@);
                    assert(crate::object::view_objects(objs@) =~= seq![
                        ObjectV::SimpleString("leader"@),
                        ObjectV::SimpleString(pv),
                    ]);
                }
                Object::Array(objs)
            },
        }
    }
}

} // verus!
