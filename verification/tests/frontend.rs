use kvs::cli::run_command;
use kvs::{Commands, KvStore, KvsError, KvsServer, Request, Response};

#[test]
fn server_dispatches_requests() {
    let store = KvStore::open(Vec::new()).unwrap();
    let mut server = KvsServer::new(store);

    let resp = server.handle_request(Request::Put {
        key: "k".to_owned(),
        value: "v".to_owned(),
    });
    assert!(matches!(resp, Response::Put));

    let resp = server.handle_request(Request::Get { key: "k".to_owned() });
    assert!(matches!(resp, Response::Get(Some(v)) if v == "v"));

    let resp = server.handle_request(Request::Remove { key: "k".to_owned() });
    assert!(matches!(resp, Response::Remove));

    let resp = server.handle_request(Request::Get { key: "k".to_owned() });
    assert!(matches!(resp, Response::Get(None)));

    let resp = server.handle_request(Request::Remove { key: "k".to_owned() });
    assert!(matches!(resp, Response::Failure(msg) if msg == "Key not found"));
}

#[test]
fn responses_interpret_as_client_results() {
    assert_eq!(
        Response::Get(Some("v".to_owned())).into_get_result().unwrap(),
        Some("v".to_owned())
    );
    assert_eq!(Response::Get(None).into_get_result().unwrap(), None);
    assert!(Response::Put.into_get_result().is_err());
    assert!(Response::Put.into_put_result().is_ok());
    assert!(Response::Remove.into_put_result().is_err());
    assert!(Response::Remove.into_remove_result().is_ok());
    assert!(Response::Failure("boom".to_owned()).into_remove_result().is_err());
}

#[test]
fn cli_commands_run_against_a_store() {
    let mut store = KvStore::open(Vec::new()).unwrap();

    let r = run_command(
        &mut store,
        Commands::Put { key: "k".to_owned(), value: "v".to_owned() },
    );
    assert!(matches!(r, Ok(None)));

    let r = run_command(&mut store, Commands::Get { key: "k".to_owned() });
    assert!(matches!(r, Ok(Some(line)) if line == "v"));

    let r = run_command(&mut store, Commands::Get { key: "missing".to_owned() });
    assert!(matches!(r, Ok(Some(line)) if line == "Key not found"));

    let r = run_command(&mut store, Commands::Rm { key: "k".to_owned() });
    assert!(matches!(r, Ok(None)));

    let r = run_command(&mut store, Commands::Rm { key: "k".to_owned() });
    assert!(matches!(r, Err(KvsError::KeyNotFound)));
}

#[test]
fn error_messages_name_the_failure() {
    assert_eq!(KvsError::KeyNotFound.message(), "Key not found");
    assert_eq!(KvsError::StringError("bad".to_owned()).message(), "bad");
    assert_eq!(KvsError::UnexpectedCommandType.message(), "Unexpected command type");
    assert_eq!(KvsError::NoReaderAvailable.message(), "No reader available");
}
