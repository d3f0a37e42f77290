//! What the command lines of client and server say, and what follows from
//! it.

use crate::error::KvError;
use crate::network::Request;
use vstd::prelude::*;
use vstd::string::StringExecFns;

verus! {

/// The address that client and server use where none is given.
pub open spec fn default_addr() -> Seq<char> {
    "127.0.0.1:4000"@
}

/// The name of the log-structured engine.
pub open spec fn kvs_name() -> Seq<char> {
    "kvs"@
}

/// The name of the engine on a B-tree.
pub open spec fn sled_name() -> Seq<char> {
    "sled"@
}

/// What is printed for a key that has no value.
pub open spec fn key_not_found_text() -> Seq<char> {
    "Key not found"@
}

/// The operation that a client was started for, with the address of the
/// server.
#[derive(Debug, Clone, PartialEq, Eq)]
pub enum Cmd {
    Get { key: String, addr: String },
    Put { key: String, value: String, addr: String },
    Rm { key: String, addr: String },
}

impl Cmd {
    /// The address of the server.
    pub open spec fn spec_addr(self) -> Seq<char> {
        match self {
            Cmd::Get { addr, .. } => addr@,
            Cmd::Put { addr, .. } => addr@,
            Cmd::Rm { addr, .. } => addr@,
        }
    }

    /// The address of the server.
    pub fn addr(&self) -> (addr: &String)
        ensures
            addr@ == self.spec_addr(),
    {
        match self {
            Cmd::Get { addr, .. } => addr,
            Cmd::Put { addr, .. } => addr,
            Cmd::Rm { addr, .. } => addr,
        }
    }

    /// The request that carries the operation to the server.
    pub fn into_request(self) -> (request: Request)
        ensures
            self matches Cmd::Get { key, addr } ==> request == (Request::Get { key }),
            self matches Cmd::Put { key, value, addr } ==> request == (Request::Put { key, value }),
            self matches Cmd::Rm { key, addr } ==> request == (Request::Remove { key }),
    {
        match self {
            Cmd::Get { key, addr } => Request::Get { key },
            Cmd::Put { key, value, addr } => Request::Put { key, value },
            Cmd::Rm { key, addr } => Request::Remove { key },
        }
    }

    /// What the client prints for the outcome of reading a key: the value,
    /// or that the key was not found.
    pub fn get_output(found: Option<String>) -> (text: String)
        ensures
            found matches Some(value) ==> text@ == value@,
            found is None ==> text@ == key_not_found_text(),
    {
        match found {
            Some(value) => value,
            None => String::from_str("Key not found"),
        }
    }
}

/// The engine that a server runs.
#[derive(Debug, Clone, Copy, PartialEq, Eq, Structural)]
pub enum Engine {
    /// The log-structured engine.
    Kvs,
    /// The engine on a B-tree.
    Sled,
}

/// The options of a server: the address to listen on and the name of the
/// engine.
#[derive(Debug, Clone, PartialEq, Eq)]
pub struct Opt {
    pub addr: String,
    pub engine: String,
}

impl Opt {
    /// The options of a server that was started without any.
    pub fn new() -> (opt: Opt)
        ensures
            opt.addr@ == default_addr(),
            opt.engine@ == kvs_name(),
    {
        Opt { addr: String::from_str("127.0.0.1:4000"), engine: String::from_str("kvs") }
    }

    /// The engine that the options name, where `name` names one.
    pub open spec fn spec_engine(name: Seq<char>) -> Option<Engine> {
        if name == kvs_name() {
            Some(Engine::Kvs)
        } else if name == sled_name() {
            Some(Engine::Sled)
        } else {
            None
        }
    }

    /// Chooses the engine to run. `recorded` is the name of the engine that
    /// the data directory was last opened with, if it was opened before. A
    /// name that differs from the recorded one is refused, and so is a name
    /// that names no engine.
    pub fn choose_engine(&self, recorded: Option<&String>) -> (choice: Result<Engine, KvError>)
        ensures
            choice is Ok <==> (recorded matches Some(name) ==> name@ == self.engine@)
                && Self::spec_engine(self.engine@) is Some,
            choice matches Ok(engine) ==> Some(engine) == Self::spec_engine(self.engine@),
            choice matches Err(e) ==> e is WrongEngine,
    {
        proof {
            reveal_strlit("kvs");
            reveal_strlit("sled");
        }
        if let Some(name) = recorded {
            if !name.eq(&self.engine) {
                return Err(KvError::WrongEngine);
            }
        }
        let kvs = String::from_str("kvs");
        let sled = String::from_str("sled");
        if self.engine.eq(&kvs) {
            Ok(Engine::Kvs)
        } else if self.engine.eq(&sled) {
            Ok(Engine::Sled)
        } else {
            Err(KvError::WrongEngine)
        }
    }
}

} // verus!
