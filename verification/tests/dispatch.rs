use rowbinary_client::error::Error;
use rowbinary_client::query::{single_row, Client, HttpMethod, Query};
use rowbinary_client::rowbinary::{FieldDef, FieldKind, Record, Schema, Value};

fn client() -> Client {
    Client {
        url: b"http://localhost:8123".to_vec(),
        database: None,
        user: None,
        password: None,
        compress_lz4: false,
        options: Vec::new(),
    }
}

#[test]
fn short_read_only_query_uses_get_with_query_in_url() {
    let plan = Query::new(client(), "SELECT 1").do_execute(true).unwrap();
    assert_eq!(plan.method, HttpMethod::Get);
    assert!(plan.body.is_empty());
    assert_eq!(plan.content_length, 0);
    assert_eq!(
        plan.pairs,
        vec![(b"query".to_vec(), b"SELECT 1".to_vec())]
    );
}

#[test]
fn mutating_query_uses_post_with_query_as_body() {
    let plan = Query::new(client(), "INSERT INTO t VALUES (1)")
        .do_execute(false)
        .unwrap();
    assert_eq!(plan.method, HttpMethod::Post);
    assert_eq!(plan.body, b"INSERT INTO t VALUES (1)".to_vec());
    assert_eq!(plan.content_length, plan.body.len());
    // a mutating POST carries no readonly marker and no query parameter
    assert!(plan.pairs.is_empty());
}

#[test]
fn long_read_only_query_uses_post_with_content_length() {
    // a 9000-byte read-only SELECT goes over POST, the body carries the
    // text, and the content length equals its byte length
    let mut text = String::from("SELECT '");
    while text.len() < 8999 {
        text.push('a');
    }
    text.push('\'');
    assert_eq!(text.len(), 9000);
    let plan = Query::new(client(), &text).do_execute(true).unwrap();
    assert_eq!(plan.method, HttpMethod::Post);
    assert_eq!(plan.body.len(), 9000);
    assert_eq!(plan.content_length, 9000);
    // read-only POSTs are marked readonly=1
    assert_eq!(plan.pairs, vec![(b"readonly".to_vec(), b"1".to_vec())]);
}

#[test]
fn boundary_length_query_still_uses_get() {
    let mut text = String::from("SELECT '");
    while text.len() < 8191 {
        text.push('a');
    }
    text.push('\'');
    assert_eq!(text.len(), 8192);
    let plan = Query::new(client(), &text).do_execute(true).unwrap();
    assert_eq!(plan.method, HttpMethod::Get);
}

#[test]
fn parameters_come_in_declared_order() {
    let c = Client {
        url: b"http://localhost:8123".to_vec(),
        database: Some(b"db".to_vec()),
        user: Some(b"u".to_vec()),
        password: Some(b"p".to_vec()),
        compress_lz4: true,
        options: vec![(b"opt".to_vec(), b"v".to_vec())],
    };
    let plan = Query::new(c, "SELECT 1").do_execute(true).unwrap();
    assert_eq!(
        plan.pairs,
        vec![
            (b"database".to_vec(), b"db".to_vec()),
            (b"compress".to_vec(), b"1".to_vec()),
            (b"query".to_vec(), b"SELECT 1".to_vec()),
            (b"opt".to_vec(), b"v".to_vec()),
        ]
    );
    assert_eq!(plan.user, Some(b"u".to_vec()));
    assert_eq!(plan.password, Some(b"p".to_vec()));
}

#[test]
fn malformed_base_url_fails_before_any_io() {
    let c = Client {
        url: b"not a url".to_vec(),
        database: None,
        user: None,
        password: None,
        compress_lz4: false,
        options: Vec::new(),
    };
    let r = Query::new(c, "SELECT 1").do_execute(true);
    assert_eq!(r.unwrap_err(), Error::InvalidParams);
}

#[test]
fn fetch_expands_fields_and_asks_for_row_binary() {
    let schema = Schema {
        fields: vec![
            FieldDef { name: b"id".to_vec(), kind: FieldKind::UInt16 },
            FieldDef { name: b"name".to_vec(), kind: FieldKind::VarStr },
        ],
    };
    let (plan, mut cur) = Query::new(client(), "SELECT ?fields FROM t")
        .fetch(schema)
        .unwrap();
    assert_eq!(plan.method, HttpMethod::Get);
    assert_eq!(
        plan.pairs,
        vec![(
            b"query".to_vec(),
            b"SELECT id,name FROM t FORMAT RowBinary".to_vec()
        )]
    );
    // the cursor decodes by the same schema
    cur.push_chunk(vec![2, 1, 2, 97, 98]);
    match cur.try_next() {
        rowbinary_client::cursor::Step::Row(rec) => {
            assert_eq!(
                rec,
                Record { values: vec![Value::UInt(258), Value::Bytes(b"ab".to_vec())] }
            );
        }
        rowbinary_client::cursor::Step::NeedInput => panic!("a full row was buffered"),
    }
}

#[test]
fn single_row_distinguishes_absence() {
    let rec = Record { values: vec![Value::UInt(1)] };
    assert!(single_row(Some(rec)).is_ok());
    assert_eq!(single_row(None).unwrap_err(), Error::RowNotFound);
}
