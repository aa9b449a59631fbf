use chronicle_broker::topology::{
    BrokerSocketMsg, BrokerTopology, ChronicleBrokerThrough, ImporterSession, RequesterTopology,
};
use std::path::PathBuf;
use url::Url;

#[test]
fn topology_commands_carry_their_addresses() {
    let url = Url::parse("tcp://api.hornet-0.testnet.chrysalis2.com:1883").unwrap();
    let command = BrokerTopology::AddMqttMessages(url.clone());
    match command.clone() {
        BrokerTopology::AddMqttMessages(carried) => assert_eq!(carried, url),
        _ => panic!("another command came back"),
    }
    let wrapped = BrokerSocketMsg::ChronicleBroker(ChronicleBrokerThrough::Topology(
        BrokerTopology::Requesters(RequesterTopology::RemoveEndpoint(url.clone())),
    ));
    match wrapped {
        BrokerSocketMsg::ChronicleBroker(ChronicleBrokerThrough::Topology(BrokerTopology::Requesters(
            RequesterTopology::RemoveEndpoint(carried),
        ))) => assert_eq!(carried, url),
        _ => panic!("another command came back"),
    }
}

#[test]
fn import_command_carries_path_and_range() {
    let command = BrokerTopology::Import {
        path: PathBuf::from("chronicle/logs"),
        resume: true,
        import_range: Some(10..20),
    };
    match command.clone() {
        BrokerTopology::Import { path, resume, import_range } => {
            assert_eq!(path, PathBuf::from("chronicle/logs"));
            assert!(resume);
            assert_eq!(import_range, Some(10..20));
        }
        _ => panic!("another command came back"),
    }
}

#[test]
fn importer_session_events() {
    let progress = ImporterSession::ProgressBar {
        log_file_size: 1024,
        from_ms: 1,
        to_ms: 9,
        ms_bytes_size: 100,
        milestone_index: 4,
        skipped: false,
    };
    assert_eq!(
        format!("{:?}", progress),
        "ProgressBar { log_file_size: 1024, from_ms: 1, to_ms: 9, ms_bytes_size: 100, milestone_index: 4, skipped: false }"
    );
    let error = ImporterSession::PathError { path: PathBuf::from("nowhere"), msg: "no such file".to_string() };
    match error {
        ImporterSession::PathError { path, msg } => {
            assert_eq!(path, PathBuf::from("nowhere"));
            assert_eq!(msg, "no such file");
        }
        _ => panic!("another event came back"),
    }
    assert!(matches!(ImporterSession::Close, ImporterSession::Close));
    assert!(matches!(
        ImporterSession::Finish { from_ms: 1, to_ms: 9, msg: "done".to_string() },
        ImporterSession::Finish { from_ms: 1, to_ms: 9, .. }
    ));
}
