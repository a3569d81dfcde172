use rowbinary_client::error::Error;
use rowbinary_client::fixed_string::FixedString;
use rowbinary_client::query::{Client, Query};
use rowbinary_client::rowbinary::{FieldDef, FieldKind, Schema};
use rowbinary_client::sql::{BindValue, SqlBuilder};

fn plain_client() -> Client {
    Client {
        url: b"http://localhost:8123".to_vec(),
        database: None,
        user: None,
        password: None,
        compress_lz4: false,
        options: Vec::new(),
    }
}

#[test]
fn binding_exactly_n_values_substitutes_in_order() {
    let q = Query::new(plain_client(), "SELECT * FROM t WHERE a = ? AND b = ?")
        .bind(BindValue::UInt(5))
        .bind(BindValue::Text(b"x".to_vec()));
    let plan = q.do_execute(false).unwrap();
    assert_eq!(plan.body, b"SELECT * FROM t WHERE a = 5 AND b = 'x'".to_vec());
}

#[test]
fn binding_one_value_too_few_fails() {
    let q = Query::new(plain_client(), "SELECT * FROM t WHERE a = ? AND b = ?")
        .bind(BindValue::UInt(5));
    assert_eq!(q.do_execute(false).unwrap_err(), Error::BindMismatch);
}

#[test]
fn binding_one_value_too_many_fails() {
    let q = Query::new(plain_client(), "SELECT * FROM t WHERE a = ?")
        .bind(BindValue::UInt(5))
        .bind(BindValue::UInt(6));
    assert_eq!(q.do_execute(false).unwrap_err(), Error::BindMismatch);
}

#[test]
fn zero_placeholders_zero_binds_succeed() {
    let q = Query::new(plain_client(), "SELECT 1");
    assert!(q.do_execute(false).is_ok());
}

#[test]
fn text_values_are_quoted_and_escaped() {
    let mut b = SqlBuilder::new(b"?".to_vec());
    b.bind_arg(BindValue::Text(b"a'b\\c\nd".to_vec()));
    let out = b.finish().unwrap();
    assert_eq!(out, b"'a\\'b\\\\c\\nd'".to_vec());
}

#[test]
fn identifiers_are_backtick_quoted() {
    let mut b = SqlBuilder::new(b"SELECT ? FROM t".to_vec());
    b.bind_arg(BindValue::Identifier(b"we`ird".to_vec()));
    let out = b.finish().unwrap();
    assert_eq!(out, b"SELECT `we``ird` FROM t".to_vec());
}

#[test]
fn numeric_values_are_emitted_verbatim() {
    let mut b = SqlBuilder::new(b"? ? ?".to_vec());
    b.bind_arg(BindValue::UInt(0));
    b.bind_arg(BindValue::Int(-42));
    b.bind_arg(BindValue::UInt(18446744073709551615));
    let out = b.finish().unwrap();
    assert_eq!(out, b"0 -42 18446744073709551615".to_vec());
}

#[test]
fn most_negative_int_binds() {
    let mut b = SqlBuilder::new(b"?".to_vec());
    b.bind_arg(BindValue::Int(i64::MIN));
    let out = b.finish().unwrap();
    assert_eq!(out, b"-9223372036854775808".to_vec());
}

#[test]
fn fields_placeholder_takes_the_column_list() {
    let mut b = SqlBuilder::new(b"SELECT ?fields FROM t".to_vec());
    let schema = Schema {
        fields: vec![
            FieldDef { name: b"id".to_vec(), kind: FieldKind::UInt16 },
            FieldDef { name: b"name".to_vec(), kind: FieldKind::VarStr },
        ],
    };
    b.bind_fields(&schema);
    let out = b.finish().unwrap();
    assert_eq!(out, b"SELECT id,name FROM t".to_vec());
}

#[test]
fn fields_placeholder_without_bound_list_fails() {
    let b = SqlBuilder::new(b"SELECT ?fields FROM t".to_vec());
    assert_eq!(b.finish().unwrap_err(), Error::BindMismatch);
}

#[test]
fn bound_list_without_fields_placeholder_fails() {
    let mut b = SqlBuilder::new(b"SELECT 1".to_vec());
    let schema = Schema {
        fields: vec![FieldDef { name: b"id".to_vec(), kind: FieldKind::UInt16 }],
    };
    b.bind_fields(&schema);
    assert_eq!(b.finish().unwrap_err(), Error::BindMismatch);
}

#[test]
fn appended_text_survives_substitution() {
    let mut b = SqlBuilder::new(b"SELECT ?".to_vec());
    b.bind_arg(BindValue::UInt(1));
    b.append(&b" LIMIT 1".to_vec());
    let out = b.finish().unwrap();
    assert_eq!(out, b"SELECT 1 LIMIT 1".to_vec());
}

#[test]
fn fixed_string_wraps_its_text() {
    let f = FixedString::new(String::from("hello"));
    assert_eq!(f.string, "hello");
    let g = FixedString::from(String::from("abc"));
    assert_eq!(g.string, "abc");
}
