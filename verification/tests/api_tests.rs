use shardik::{
    drain, init, ClientError, Code, LockRequest, LockRequestBody, LockResponse, LockResponseBody,
    MetricsOpts, Record, ShardData, Status, Ui,
};

#[test]
fn expect_acquire_takes_the_shard_id() {
    let req = LockRequest { body: Some(LockRequestBody::Acquire("7".to_string())) };
    assert_eq!(req.expect_acquire().map_err(|s| s.code), Ok("7".to_string()));

    let req = LockRequest { body: None };
    match req.expect_acquire() {
        Err(status) => assert_eq!(status.code, Code::FailedPrecondition),
        Ok(_) => panic!("an empty body is not an Acquire"),
    }
}

#[test]
fn expect_released_takes_the_data() {
    let mut d = ShardData::new();
    d.push_key("0/0".to_string());
    let req = LockRequest { body: Some(LockRequestBody::Released(d)) };
    let data = req.expect_released().map_err(|_| ()).expect("a Released frame");
    assert_eq!(data.get("0/0"), Some(false));

    let req = LockRequest { body: Some(LockRequestBody::Acquire("0".to_string())) };
    match req.expect_released() {
        Err(status) => assert_eq!(status.code, Code::FailedPrecondition),
        Ok(_) => panic!("an Acquire is not a Released"),
    }
}

#[test]
fn expect_acquired_takes_the_data() {
    let resp = LockResponse { body: Some(LockResponseBody::Acquired(ShardData::new())) };
    assert!(resp.expect_acquired().is_ok());

    let resp = LockResponse { body: Some(LockResponseBody::Release("0".to_string())) };
    assert_eq!(resp.expect_acquired().err(), Some(ClientError::ExpectedAcquired));
}

#[test]
fn expect_release_takes_the_shard_id() {
    let resp = LockResponse { body: Some(LockResponseBody::Release("31".to_string())) };
    assert_eq!(resp.expect_release(), Ok("31".to_string()));

    let resp = LockResponse { body: None };
    assert_eq!(resp.expect_release(), Err(ClientError::ExpectedRelease));
}

#[test]
fn status_keeps_code_and_message() {
    let status = Status::new(Code::DataLoss, "shard not released");
    assert_eq!(status.code, Code::DataLoss);
    assert_eq!(status.message, "shard not released");
}

#[test]
fn logger_drains_in_order() {
    let mut logger = init();
    logger.log("first".to_string());
    logger.log("second".to_string());
    logger.log("third".to_string());
    let lines = drain(&mut logger);
    assert_eq!(lines, vec!["first".to_string(), "second".to_string(), "third".to_string()]);
    assert!(drain(&mut logger).is_empty());
    logger.log("later".to_string());
    assert_eq!(drain(&mut logger), vec!["later".to_string()]);
}

#[test]
fn ui_keeps_the_newest_lines() {
    let mut ui = Ui::new();
    ui.append_logs(vec!["a".to_string(), "b".to_string()], 3);
    assert_eq!(ui.lines(), &vec!["a".to_string(), "b".to_string()]);
    ui.append_logs(vec!["c".to_string(), "d".to_string()], 3);
    assert_eq!(ui.lines(), &vec!["b".to_string(), "c".to_string(), "d".to_string()]);
    ui.append_logs(Vec::new(), 1);
    assert_eq!(ui.lines(), &vec!["d".to_string()]);
}

#[test]
fn metrics_records_keep_their_fields() {
    let opts = MetricsOpts::new("metrics.csv".to_string());
    assert_eq!(opts.metrics_file, "metrics.csv");
    let record = Record::new("client-1".to_string(), "0/0".to_string(), 12345);
    assert_eq!(record.client_name, "client-1");
    assert_eq!(record.key, "0/0");
    assert_eq!(record.nanos, 12345);
}
