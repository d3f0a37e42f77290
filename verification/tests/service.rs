use kvs::cli::{Cmd, Engine, Opt};
use kvs::client::Client;
use kvs::error::KvError;
use kvs::logs::LogDir;
use kvs::network::{Deserialize, Request, Response, Serialize};
use kvs::server::{Server, ServerAction, ServerEvent};
use kvs::store::KvStore;

fn server() -> Server<KvStore> {
    Server::new(KvStore::open(LogDir::new()).unwrap()).ok().unwrap()
}

fn get(key: &str) -> Request {
    Request::Get { key: key.to_owned() }
}

fn put(key: &str, value: &str) -> Request {
    Request::Put { key: key.to_owned(), value: value.to_owned() }
}

fn remove(key: &str) -> Request {
    Request::Remove { key: key.to_owned() }
}

fn bytes_of(request: &Request) -> Vec<u8> {
    let mut buf = Vec::new();
    request.serialize(&mut buf).unwrap();
    buf
}

#[test]
fn server_answers_each_request_with_its_response() {
    let mut server = server();
    assert_eq!(server.respond(get("k")), Response::Get(None));
    assert_eq!(server.respond(put("k", "v")), Response::Put);
    assert_eq!(server.respond(get("k")), Response::Get(Some("v".to_owned())));
    assert_eq!(server.respond(remove("k")), Response::Remove);
    assert_eq!(server.respond(get("k")), Response::Get(None));
}

#[test]
fn server_reports_the_text_of_an_engine_error() {
    let mut server = server();
    assert_eq!(server.respond(remove("k")), Response::Error("Key not found".to_owned()));
}

#[test]
fn server_serves_a_connection_in_bytes() {
    let mut server = server();
    let output = server.handle_connection(&bytes_of(&put("k", "v")));
    assert_eq!(Response::deserialize(&output), Ok(Response::Put));
    let output = server.handle_connection(&bytes_of(&get("k")));
    assert_eq!(output, vec![1, 1, 0, 0, 0, 1, b'v']);
    let output = server.handle_connection(&bytes_of(&remove("nope")));
    assert_eq!(Response::deserialize(&output), Ok(Response::Error("Key not found".to_owned())));
}

#[test]
fn server_answers_bytes_that_are_no_request() {
    let mut server = server();
    server.respond(put("k", "v"));
    for input in [&[][..], &[9, 9][..], &[2, 0, 0, 0, 1, b'k'][..]] {
        let output = server.handle_connection(input);
        assert_eq!(Response::deserialize(&output), Ok(Response::Error("bad request".to_owned())));
    }
    assert_eq!(server.respond(get("k")), Response::Get(Some("v".to_owned())));
}

#[test]
fn accept_loop_turns() {
    let mut server = server();
    assert_eq!(
        server.step(ServerEvent::Connection(bytes_of(&put("k", "v")))),
        ServerAction::Reply(vec![2])
    );
    assert_eq!(
        server.step(ServerEvent::Connection(bytes_of(&get("k")))),
        ServerAction::Reply(vec![1, 1, 0, 0, 0, 1, b'v'])
    );
    assert_eq!(
        server.step(ServerEvent::AcceptFailed("refused".to_owned())),
        ServerAction::Fail(KvError::Io("refused".to_owned()))
    );
    assert_eq!(server.step(ServerEvent::Shutdown), ServerAction::Stop);
    assert_eq!(server.engine().writer().curr_gen(), 1);
    let mut engine = server.into_engine();
    assert_eq!(
        kvs::store::KvsEngine::get(&mut engine, "k".to_owned()),
        Ok(Some("v".to_owned()))
    );
}

#[test]
fn client_reads_the_response_to_a_get() {
    assert_eq!(Client::get(Some(Response::Get(Some("v".to_owned())))), Ok(Some("v".to_owned())));
    assert_eq!(Client::get(Some(Response::Get(None))), Ok(None));
    assert_eq!(
        Client::get(Some(Response::Error("boom".to_owned()))),
        Err(KvError::StringError("boom".to_owned()))
    );
    assert_eq!(
        Client::get(Some(Response::Put)),
        Err(KvError::StringError("Invalid response".to_owned()))
    );
    assert_eq!(
        Client::get(Some(Response::Remove)),
        Err(KvError::StringError("Invalid response".to_owned()))
    );
    assert_eq!(Client::get(None), Err(KvError::StringError("No response received".to_owned())));
}

#[test]
fn client_reads_the_response_to_a_set() {
    assert_eq!(Client::set(Some(Response::Put)), Ok(()));
    assert_eq!(
        Client::set(Some(Response::Error("boom".to_owned()))),
        Err(KvError::StringError("boom".to_owned()))
    );
    assert_eq!(
        Client::set(Some(Response::Get(None))),
        Err(KvError::StringError("Invalid response".to_owned()))
    );
    assert_eq!(
        Client::set(Some(Response::Remove)),
        Err(KvError::StringError("Invalid response".to_owned()))
    );
    assert_eq!(Client::set(None), Err(KvError::StringError("No response received".to_owned())));
}

#[test]
fn client_reads_the_response_to_a_remove() {
    assert_eq!(Client::remove(Some(Response::Remove)), Ok(()));
    assert_eq!(
        Client::remove(Some(Response::Error("Key not found".to_owned()))),
        Err(KvError::StringError("Key not found".to_owned()))
    );
    assert_eq!(
        Client::remove(Some(Response::Put)),
        Err(KvError::StringError("Invalid response".to_owned()))
    );
    assert_eq!(
        Client::remove(Some(Response::Get(None))),
        Err(KvError::StringError("Invalid response".to_owned()))
    );
    assert_eq!(Client::remove(None), Err(KvError::StringError("No response received".to_owned())));
}

#[test]
fn client_and_server_agree() {
    let mut server = server();
    assert_eq!(Client::set(Some(server.respond(put("k", "v")))), Ok(()));
    assert_eq!(Client::get(Some(server.respond(get("k")))), Ok(Some("v".to_owned())));
    assert_eq!(Client::remove(Some(server.respond(remove("k")))), Ok(()));
    assert_eq!(
        Client::remove(Some(server.respond(remove("k")))),
        Err(KvError::StringError("Key not found".to_owned()))
    );
}

#[test]
fn commands_become_requests() {
    let addr = "127.0.0.1:4000".to_owned();
    let cmd = Cmd::Get { key: "k".to_owned(), addr: addr.clone() };
    assert_eq!(cmd.addr(), &addr);
    assert_eq!(cmd.into_request(), get("k"));
    let cmd = Cmd::Put { key: "k".to_owned(), value: "v".to_owned(), addr: "h:1".to_owned() };
    assert_eq!(cmd.addr(), "h:1");
    assert_eq!(cmd.into_request(), put("k", "v"));
    let cmd = Cmd::Rm { key: "k".to_owned(), addr };
    assert_eq!(cmd.into_request(), remove("k"));
}

#[test]
fn what_a_get_prints() {
    assert_eq!(Cmd::get_output(Some("v".to_owned())), "v");
    assert_eq!(Cmd::get_output(None), "Key not found");
}

#[test]
fn server_options() {
    let opt = Opt::new();
    assert_eq!(opt.addr, "127.0.0.1:4000");
    assert_eq!(opt.engine, "kvs");
    assert_eq!(opt.choose_engine(None), Ok(Engine::Kvs));
    assert_eq!(opt.choose_engine(Some(&"kvs".to_owned())), Ok(Engine::Kvs));
    assert_eq!(opt.choose_engine(Some(&"sled".to_owned())), Err(KvError::WrongEngine));

    let opt = Opt { addr: "0.0.0.0:1".to_owned(), engine: "sled".to_owned() };
    assert_eq!(opt.choose_engine(None), Ok(Engine::Sled));
    assert_eq!(opt.choose_engine(Some(&"kvs".to_owned())), Err(KvError::WrongEngine));

    let opt = Opt { addr: "0.0.0.0:1".to_owned(), engine: "rocks".to_owned() };
    assert_eq!(opt.choose_engine(None), Err(KvError::WrongEngine));
    assert_eq!(opt.choose_engine(Some(&"rocks".to_owned())), Err(KvError::WrongEngine));
}
