//! The server's part in a connection: from the request that came in to the
//! response that goes out.

use crate::bytes::text_fits;
use crate::error::KvError;
use crate::network::{
    Deserialize, GetResponse, RemoveResponse, Request, Response, ResponseView, Serialize,
    SetResponse,
};
use crate::store::KvsEngine;
use vstd::prelude::*;
use vstd::string::StringExecFns;
use vstd::utf8::is_ascii_chars_encode_utf8;

verus! {

/// What the accept loop of a server meets.
#[derive(Debug, Clone, PartialEq, Eq)]
pub enum ServerEvent {
    /// A connection was accepted and these bytes, one request, were read
    /// from it.
    Connection(Vec<u8>),
    /// Accepting a connection failed, for the reason given.
    AcceptFailed(String),
    /// The signal to shut down has fired.
    Shutdown,
}

/// What the accept loop of a server is to do next.
#[derive(Debug, Clone, PartialEq, Eq)]
pub enum ServerAction {
    /// Send these bytes, one response, on the connection and go on
    /// accepting.
    Reply(Vec<u8>),
    /// Stop accepting and return.
    Stop,
    /// Stop accepting and return this error.
    Fail(KvError),
}

/// A server in front of a storage engine.
pub struct Server<E: KvsEngine> {
    engine: E,
}

impl<E: KvsEngine> Server<E> {
    /// The engine behind the server.
    pub closed spec fn spec_engine(&self) -> E {
        self.engine
    }

    /// A server in front of `engine`.
    pub fn new(engine: E) -> (server: Result<Server<E>, KvError>)
        ensures
            server matches Ok(s) && s.spec_engine() == engine,
    {
        Ok(Server { engine })
    }

    /// Whether `response` is an answer that `request` may get from an engine
    /// that held `before` and holds `after`.
    pub open spec fn answered(
        request: Request,
        before: Map<Seq<char>, Seq<char>>,
        after: Map<Seq<char>, Seq<char>>,
        response: Response,
    ) -> bool {
        match request {
            Request::Get { key } => {
                &&& after == before
                &&& response is Get || response is Error
                &&& response matches Response::Get(Some(text)) ==> before.contains_key(key@)
                    && text@ == before[key@]
                &&& response matches Response::Get(None) ==> !before.contains_key(key@)
            },
            Request::Put { key, value } => {
                &&& response is Put || response is Error
                &&& response is Put ==> after == before.insert(key@, value@)
                &&& response is Error ==> after == before || after == before.insert(key@, value@)
            },
            Request::Remove { key } => {
                &&& after == before.remove(key@)
                &&& response is Remove || response is Error
                &&& response is Remove ==> before.contains_key(key@)
                &&& !before.contains_key(key@) ==> (response matches Response::Error(message)
                    && message@ == KvError::KeyNotFound.spec_message())
            },
        }
    }

    /// Carries out one request on the engine and says what to answer: the
    /// outcome of the engine's operation, or the text of its error.
    pub fn respond(&mut self, request: Request) -> (response: Response)
        requires
            old(self).spec_engine().ready(),
        ensures
            final(self).spec_engine().ready(),
            Self::answered(
                request,
                old(self).spec_engine().contents(),
                final(self).spec_engine().contents(),
                response,
            ),
    {
        match request {
            Request::Get { key } => GetResponse::from_engine(self.engine.get(key)).into_response(),
            Request::Put { key, value } => SetResponse::from_engine(
                self.engine.set(key, value),
            ).into_response(),
            Request::Remove { key } => RemoveResponse::from_engine(
                self.engine.remove(key),
            ).into_response(),
        }
    }

    /// Whether `output` is what a connection that brought `input` is owed by
    /// an engine that held `before` and holds `after`: the response to the
    /// request that `input` holds, or, where `input` holds none, the report
    /// of a bad request from an engine that has not changed. A response too
    /// long to be written gives way to the report of that.
    pub open spec fn served(
        input: Seq<u8>,
        before: Map<Seq<char>, Seq<char>>,
        after: Map<Seq<char>, Seq<char>>,
        output: Seq<u8>,
    ) -> bool {
        if Request::readable(input) {
            exists|request: Request, response: Response|
                {
                    &&& Request::reads(input, request)
                    &&& #[trigger] Self::answered(request, before, after, response)
                    &&& output == if response.fits() {
                        response.wire()
                    } else {
                        too_large().wire()
                    }
                }
        } else {
            after == before && output == bad_request().wire()
        }
    }

    /// Serves one connection: reads the request that `input` holds, carries
    /// it out and returns the bytes of the response. Bytes that are no
    /// request are answered with an error and change nothing.
    pub fn handle_connection(&mut self, input: &[u8]) -> (output: Vec<u8>)
        requires
            old(self).spec_engine().ready(),
        ensures
            final(self).spec_engine().ready(),
            Self::served(
                input@,
                old(self).spec_engine().contents(),
                final(self).spec_engine().contents(),
                output@,
            ),
    {
        proof {
            reveal_strlit("bad request");
            reveal_strlit("response too large");
            is_ascii_chars_encode_utf8("bad request"@);
            is_ascii_chars_encode_utf8("response too large"@);
            assert(text_fits("bad request"@));
            assert(text_fits("response too large"@));
        }
        let mut output: Vec<u8> = Vec::new();
        match Request::deserialize(input) {
            Ok(request) => {
                let ghost asked = request;
                let response = self.respond(request);
                match response.serialize(&mut output) {
                    Ok(_) => {},
                    Err(_) => {
                        let _ = Response::Error(String::from_str("response too large")).serialize(
                            &mut output,
                        );
                    },
                }
                assert(output@ =~= if response.fits() {
                    response.wire()
                } else {
                    too_large().wire()
                });
                assert(Self::answered(
                    asked,
                    old(self).spec_engine().contents(),
                    self.spec_engine().contents(),
                    response,
                ));
            },
            Err(_) => {
                let _ = Response::Error(String::from_str("bad request")).serialize(&mut output);
                assert(output@ =~= bad_request().wire());
            },
        }
        output
    }

    /// One turn of the accept loop: a connection is served and answered, a
    /// failure to accept ends the loop with its error, and the signal to
    /// shut down ends the loop.
    pub fn step(&mut self, event: ServerEvent) -> (action: ServerAction)
        requires
            old(self).spec_engine().ready(),
        ensures
            final(self).spec_engine().ready(),
            event is Shutdown ==> action is Stop,
            event is Shutdown ==> final(self).spec_engine() == old(self).spec_engine(),
            event is AcceptFailed ==> final(self).spec_engine() == old(self).spec_engine(),
            event matches ServerEvent::AcceptFailed(reason) ==> (action matches ServerAction::Fail(
                KvError::Io(detail),
            ) && detail == reason),
            event matches ServerEvent::Connection(input) ==> (action matches ServerAction::Reply(
                output,
            ) && Self::served(
                input@,
                old(self).spec_engine().contents(),
                final(self).spec_engine().contents(),
                output@,
            )),
    {
        match event {
            ServerEvent::Connection(input) => ServerAction::Reply(
                self.handle_connection(input.as_slice()),
            ),
            ServerEvent::AcceptFailed(reason) => ServerAction::Fail(KvError::Io(reason)),
            ServerEvent::Shutdown => ServerAction::Stop,
        }
    }

    /// The engine behind the server.
    pub fn engine(&self) -> (engine: &E)
        ensures
            *engine == self.spec_engine(),
    {
        &self.engine
    }

    /// Gives the engine back.
    pub fn into_engine(self) -> (engine: E)
        ensures
            engine == self.spec_engine(),
    {
        self.engine
    }
}

/// The response to bytes that are no request.
pub open spec fn bad_request() -> ResponseView {
    ResponseView::Error("bad request"@)
}

/// The response in place of one that is too long to be written.
pub open spec fn too_large() -> ResponseView {
    ResponseView::Error("response too large"@)
}

} // verus!
