use nyrodb::broadcast::Broadcaster;
use nyrodb::config::{check_api_key, NyroConfig};
use nyrodb::engine::{check_required, project_record, JsonDoc, NyroDB};
use nyrodb::errors::NyroError;
use nyrodb::json::record_to_json;
use nyrodb::logger::Logger;
use nyrodb::metrics::Metrics;
use nyrodb::models::{JsonVal, Record};

fn rec(fields: Vec<(&str, JsonVal)>) -> Record {
    Record {
        fields: fields.into_iter().map(|(n, v)| (n.to_string(), v)).collect(),
    }
}

fn user_body(id: u64, email: &str) -> JsonDoc {
    JsonDoc::Object(rec(vec![
        ("id", JsonVal::UInt(id)),
        ("email", JsonVal::Str(email.to_string())),
        ("hash_password", JsonVal::Str("x".to_string())),
        ("created_at", JsonVal::UInt(0)),
    ]))
}

fn sync_config() -> NyroConfig {
    let mut c = NyroConfig::default();
    c.performance.batch_size = 1;
    c
}

fn sync_engine() -> NyroDB {
    NyroDB::new(sync_config(), Vec::new())
}

#[test]
fn insert_then_get() {
    let mut db = sync_engine();
    let id = db.insert_at("user", user_body(1, "a@b"), 0).expect("insert");
    assert_eq!(id, 1);
    let got = db.get_raw("user", 1).expect("model exists").expect("id found");
    assert_eq!(
        record_to_json(&got),
        br#"{"id":1,"email":"a@b","hash_password":"x","created_at":0}"#.to_vec()
    );
}

#[test]
fn undeclared_fields_are_dropped() {
    let mut db = sync_engine();
    let body = JsonDoc::Object(rec(vec![
        ("id", JsonVal::UInt(1)),
        ("email", JsonVal::Str("a@b".to_string())),
        ("hash_password", JsonVal::Str("x".to_string())),
        ("created_at", JsonVal::UInt(0)),
        ("admin", JsonVal::Bool(true)),
    ]));
    let id = db.insert_at("user", body, 0).expect("insert succeeds");
    assert_eq!(id, 1);
    let got = db.get_raw("user", 1).expect("model exists").expect("id found");
    assert!(got.fields.iter().all(|(n, _)| n != "admin"));
    assert_eq!(
        record_to_json(&got),
        br#"{"id":1,"email":"a@b","hash_password":"x","created_at":0}"#.to_vec()
    );
}

#[test]
fn missing_required_field_is_rejected() {
    let mut db = sync_engine();
    let body = JsonDoc::Object(rec(vec![
        ("id", JsonVal::UInt(1)),
        ("hash_password", JsonVal::Str("x".to_string())),
        ("created_at", JsonVal::UInt(0)),
    ]));
    let err = db.insert_at("user", body, 0).expect_err("email is required");
    assert_eq!(err.message(), "Missing required field: 'email'");
    // the rejected insert left no trace
    assert!(db.get_raw("user", 1).expect("model exists").is_none());
    assert_eq!(db.query_raw("user").expect("model exists").len(), 0);
}

#[test]
fn query_by_field_finds_equal_values() {
    let mut db = sync_engine();
    db.insert_at("user", user_body(1, "a@b"), 0).expect("insert");
    db.insert_at("user", user_body(2, "a@b"), 0).expect("insert");
    db.insert_at("user", user_body(3, "c@d"), 0).expect("insert");
    let hits = db.query_by_field_raw("user", "email", "a@b").expect("model exists");
    assert_eq!(hits.len(), 2);
    let mut ids: Vec<u64> = hits
        .iter()
        .map(|r| nyrodb::models::rec_get_id(r).expect("records carry ids"))
        .collect();
    ids.sort();
    assert_eq!(ids, vec![1, 2]);
    let none = db.query_by_field_raw("user", "email", "zz").expect("model exists");
    assert!(none.is_empty());
}

#[test]
fn restart_keeps_acknowledged_records() {
    let mut db = sync_engine();
    let n = 50u64;
    for id in 1..=n {
        db.insert_at("user", user_body(id, "a@b"), 0).expect("insert");
    }
    // a crash after shutdown flushed the segments
    let tails = db.shutdown();
    let files: Vec<(String, Vec<u8>)> = tails;
    let mut db2 = NyroDB::new(sync_config(), files);
    let all = db2.query_raw("user").expect("model exists");
    assert_eq!(all.len(), n as usize);
    for id in 1..=n {
        assert!(db2.get_raw("user", id).expect("model exists").is_some());
    }
}

#[test]
fn batch_path_drains_and_broadcasts() {
    let mut c = NyroConfig::default();
    c.performance.batch_size = 100;
    let mut db = NyroDB::new(c, Vec::new());
    let sub = db.subscribe();
    db.insert_at("user", user_body(1, "a@b"), 0).expect("enqueued");
    db.insert_at("user", user_body(2, "c@d"), 0).expect("enqueued");
    // not yet durable or indexed: the queue has not been drained
    assert!(db.get_raw("user", 1).expect("model exists").is_none());
    assert!(!db.batch_ready());
    db.process_batch();
    assert!(db.get_raw("user", 1).expect("model exists").is_some());
    assert!(db.get_raw("user", 2).expect("model exists").is_some());
    let events = db.poll_events(sub);
    assert_eq!(events.len(), 2);
    assert_eq!(
        events[0],
        br#"INSERT:user:{"id":1,"email":"a@b","hash_password":"x","created_at":0}"#.to_vec()
    );
    assert_eq!(
        events[1],
        br#"INSERT:user:{"id":2,"email":"c@d","hash_password":"x","created_at":0}"#.to_vec()
    );
    // the queue was drained in one pass
    let empty = db.poll_events(sub);
    assert!(empty.is_empty());
}

#[test]
fn unknown_model_is_rejected() {
    let mut db = sync_engine();
    let err = db.insert_at("ghost", user_body(1, "a@b"), 0).expect_err("no such model");
    assert_eq!(err.message(), "Model 'ghost' not defined in configuration");
    let err2 = db.get_raw("ghost", 1).expect_err("no such model");
    assert!(matches!(err2, NyroError::ModelUnknown(_)));
    assert!(db.query_raw("ghost").is_err());
    assert!(db.query_by_field_raw("ghost", "email", "a@b").is_err());
}

#[test]
fn non_object_bodies_are_rejected() {
    let mut db = sync_engine();
    let err = db.insert_at("user", JsonDoc::Other, 0).expect_err("not an object");
    assert_eq!(err.message(), "Data must be a JSON object");
}

#[test]
fn missing_or_bad_id_is_rejected() {
    let mut db = sync_engine();
    let no_id = JsonDoc::Object(rec(vec![
        ("id", JsonVal::Str("one".to_string())),
        ("email", JsonVal::Str("a@b".to_string())),
        ("hash_password", JsonVal::Str("x".to_string())),
        ("created_at", JsonVal::UInt(0)),
    ]));
    let err = db.insert_at("user", no_id, 0).expect_err("id must be a u64");
    assert_eq!(err.message(), "Missing or invalid 'id' field");
}

#[test]
fn error_messages_cover_all_kinds() {
    assert_eq!(NyroError::StorageIO.message(), "Storage write failed");
    assert_eq!(NyroError::CodecFailure.message(), "Failed to encode log entry");
    assert_eq!(NyroError::InvalidId.message(), "Missing or invalid 'id' field");
    assert_eq!(
        NyroError::MissingField("email".to_string()).message(),
        "Missing required field: 'email'"
    );
    assert_eq!(
        NyroError::ModelUnknown("m".to_string()).message(),
        "Model 'm' not defined in configuration"
    );
    assert_eq!(NyroError::NotObject.message(), "Data must be a JSON object");
}

#[test]
fn api_keys_gate_requests() {
    let mut c = NyroConfig::default();
    c.security.enable_auth = true;
    c.security.api_key = "k".to_string();
    assert!(!check_api_key(&c.security, None));
    assert!(!check_api_key(&c.security, Some(&"wrong".to_string())));
    assert!(check_api_key(&c.security, Some(&"k".to_string())));
    c.security.enable_auth = false;
    assert!(check_api_key(&c.security, None));
}

#[test]
fn metrics_count_and_evict() {
    let mut m = Metrics::new(&NyroConfig::default().metrics);
    for i in 0..5 {
        m.record_insert(i, 4);
    }
    // pushing past the cap drops the oldest half of it
    assert_eq!(m.total_inserts, 5);
    assert_eq!(m.insert_times, vec![2, 3, 4]);
    m.record_get(9, 4);
    m.record_query();
    m.record_batch_insert();
    let snap = m.get_stats();
    assert_eq!(snap.total_inserts, 6);
    assert_eq!(snap.total_gets, 1);
    assert_eq!(snap.total_queries, 1);
    assert_eq!(snap.total_operations, 8);
    assert_eq!(snap.get_times, vec![9]);
}

#[test]
fn metrics_ignore_updates_when_disabled() {
    let mut c = NyroConfig::default();
    c.metrics.enable = false;
    let mut m = Metrics::new(&c.metrics);
    m.record_insert(1, 4);
    m.record_query();
    assert_eq!(m.total_inserts, 0);
    assert_eq!(m.total_queries, 0);
}

#[test]
fn config_validation_rejects_bad_values() {
    assert!(NyroConfig::default().validate().is_ok());
    let mut c = NyroConfig::default();
    c.server.port = 0;
    assert_eq!(c.validate().expect_err("port"), "Server port cannot be 0");
    let mut c = NyroConfig::default();
    c.performance.batch_size = 0;
    assert_eq!(c.validate().expect_err("batch"), "Batch size cannot be 0");
    let mut c = NyroConfig::default();
    c.logging.level = "loud".to_string();
    assert_eq!(c.validate().expect_err("level"), "Invalid log level: loud");
    let mut c = NyroConfig::default();
    c.models.clear();
    assert_eq!(
        c.validate().expect_err("models"),
        "No models defined in configuration"
    );
    let mut c = NyroConfig::default();
    c.models[0].1.fields.retain(|f| f.name != "id");
    assert_eq!(
        c.validate().expect_err("id field"),
        "Model 'user' must have an 'id' field"
    );
}

#[test]
fn default_config_matches_expectations() {
    let c = NyroConfig::default();
    assert_eq!(c.server.host, "127.0.0.1");
    assert_eq!(c.server.port, 8080);
    assert_eq!(c.performance.batch_size, 1000);
    assert_eq!(c.models.len(), 2);
    assert_eq!(c.models[0].0, "user");
    assert_eq!(c.models[1].0, "product");
    assert!(c.get_model_schema("user").is_some());
    assert!(c.get_model_schema("order").is_none());
    assert!(c.has_model("product"));
}

#[test]
fn log_levels_filter_messages() {
    let mut c = NyroConfig::default();
    c.logging.level = "error".to_string();
    assert!(Logger::should_log(&c.logging, "error"));
    assert!(Logger::should_log(&c.logging, "shutdown"));
    assert!(!Logger::should_log(&c.logging, "info"));
    assert!(!Logger::should_log(&c.logging, "warn"));
    c.logging.level = "warn".to_string();
    assert!(Logger::should_log(&c.logging, "warn"));
    assert!(!Logger::should_log(&c.logging, "info"));
    c.logging.level = "info".to_string();
    assert!(Logger::should_log(&c.logging, "info"));
}

#[test]
fn broadcaster_is_lossy_when_full() {
    let mut b = Broadcaster::new(2);
    let sub = b.subscribe();
    b.publish(&b"one".to_vec());
    b.publish(&b"two".to_vec());
    b.publish(&b"three".to_vec());
    let got = b.poll(sub);
    assert_eq!(got, vec![b"two".to_vec(), b"three".to_vec()]);
    // late subscribers see only what comes after they attach
    let sub2 = b.subscribe();
    b.publish(&b"four".to_vec());
    assert_eq!(b.poll(sub2), vec![b"four".to_vec()]);
}

#[test]
fn last_insert_wins_through_the_engine() {
    let mut db = sync_engine();
    db.insert_at("user", user_body(7, "old@x"), 0).expect("insert");
    db.insert_at("user", user_body(7, "new@x"), 0).expect("insert");
    let got = db.get_raw("user", 7).expect("model exists").expect("id found");
    assert_eq!(
        record_to_json(&got),
        br#"{"id":7,"email":"new@x","hash_password":"x","created_at":0}"#.to_vec()
    );
    assert_eq!(db.query_raw("user").expect("model exists").len(), 1);
}

#[test]
fn projection_and_validation_follow_the_schema() {
    let c = NyroConfig::default();
    let schema = c.get_model_schema("user").expect("user model");
    let full = rec(vec![
        ("admin", JsonVal::Bool(true)),
        ("id", JsonVal::UInt(3)),
        ("email", JsonVal::Str("a@b".to_string())),
        ("hash_password", JsonVal::Str("x".to_string())),
        ("created_at", JsonVal::UInt(9)),
    ]);
    assert!(check_required(schema, &full).is_none());
    let projected = project_record(schema, &full);
    // declaration order, declared fields only
    let names: Vec<&str> = projected.fields.iter().map(|(n, _)| n.as_str()).collect();
    assert_eq!(names, vec!["id", "email", "hash_password", "created_at"]);
    let partial = rec(vec![("id", JsonVal::UInt(3))]);
    assert_eq!(
        check_required(schema, &partial).expect("email missing first"),
        "email"
    );
}

#[test]
fn nested_values_store_and_index() {
    let mut c = sync_config();
    c.models.push((
        "doc".to_string(),
        nyrodb::config::ModelSchema {
            fields: vec![
                nyrodb::config::ModelField {
                    name: "id".to_string(),
                    field_type: "u64".to_string(),
                    required: true,
                },
                nyrodb::config::ModelField {
                    name: "meta".to_string(),
                    field_type: "string".to_string(),
                    required: false,
                },
            ],
        },
    ));
    let mut db = NyroDB::new(c, Vec::new());
    let body = JsonDoc::Object(rec(vec![
        ("id", JsonVal::UInt(1)),
        ("meta", JsonVal::Nested(r#"{"tags":["a","b"]}"#.to_string())),
    ]));
    db.insert_at("doc", body, 0).expect("nested insert");
    let got = db.get_raw("doc", 1).expect("model exists").expect("id found");
    assert_eq!(
        record_to_json(&got),
        br#"{"id":1,"meta":{"tags":["a","b"]}}"#.to_vec()
    );
    // the secondary index keys nested values by their JSON text
    let hits = db
        .query_by_field_raw("doc", "meta", r#"{"tags":["a","b"]}"#)
        .expect("model exists");
    assert_eq!(hits.len(), 1);
    // a crash and restart keep the nested record readable
    let files = db.shutdown();
    let mut db2 = NyroDB::new(
        {
            let mut c2 = sync_config();
            c2.models.push((
                "doc".to_string(),
                nyrodb::config::ModelSchema {
                    fields: vec![
                        nyrodb::config::ModelField {
                            name: "id".to_string(),
                            field_type: "u64".to_string(),
                            required: true,
                        },
                        nyrodb::config::ModelField {
                            name: "meta".to_string(),
                            field_type: "string".to_string(),
                            required: false,
                        },
                    ],
                },
            ));
            c2
        },
        files,
    );
    assert!(db2.get_raw("doc", 1).expect("model exists").is_some());
}

#[test]
fn malformed_nested_text_is_rejected() {
    let mut db = sync_engine();
    let body = JsonDoc::Object(rec(vec![
        ("id", JsonVal::UInt(1)),
        ("email", JsonVal::Str("a@b".to_string())),
        ("hash_password", JsonVal::Str("x".to_string())),
        ("created_at", JsonVal::Nested("{\"open\":1".to_string())),
    ]));
    let err = db.insert_at("user", body, 0).expect_err("unbalanced text");
    assert_eq!(err.message(), "Failed to encode log entry");
}

#[test]
fn duplicate_model_names_are_rejected() {
    let mut c = NyroConfig::default();
    let user = c.models[0].1.fields.iter().map(|f| nyrodb::config::ModelField {
        name: f.name.clone(),
        field_type: f.field_type.clone(),
        required: f.required,
    }).collect::<Vec<_>>();
    c.models.push(("user".to_string(), nyrodb::config::ModelSchema { fields: user }));
    assert_eq!(
        c.validate().expect_err("duplicate name"),
        "Duplicate model name: 'user'"
    );
}
