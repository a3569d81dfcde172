use vstd::prelude::*;
use vstd::string::*;

use crate::cursor::RowCursor;
use crate::error::Error;
use crate::rowbinary::{Record, Schema};
use crate::sql::{
    fields_view, frags_view, spec_columns, spec_escaped, spec_subst, BindValue, SqlBuilder,
};

verus! {

/// Read-only queries whose encoded text is at or under this length go over
/// GET; longer ones, and every mutating statement, go over POST, to avoid
/// URL length limits and caching side effects.
pub const MAX_QUERY_LEN_TO_USE_GET: usize = 8192;

/// Client-level connection settings, read-only once a query is issued.
pub struct Client {
    /// The base URL text of the server.
    pub url: Vec<u8>,
    /// The database to address, if configured.
    pub database: Option<Vec<u8>>,
    /// Credential: user, sent as a dedicated request header.
    pub user: Option<Vec<u8>>,
    /// Credential: key, sent as a dedicated request header.
    pub password: Option<Vec<u8>>,
    /// Whether to ask the server to compress the response.
    pub compress_lz4: bool,
    /// Additional static URL parameters, appended last.
    pub options: Vec<(Vec<u8>, Vec<u8>)>,
}

#[derive(Debug, PartialEq, Eq)]
pub enum HttpMethod {
    Get,
    Post,
}

/// The transport request this layer decides on, as plain values: the
/// method, the base URL, the URL query parameters in order (prior ones
/// cleared first), the body bytes, the always-explicit content length,
/// and the credential headers. Building and sending the wire request from
/// it is the transport collaborator's part.
#[derive(Debug)]
pub struct RequestPlan {
    pub method: HttpMethod,
    pub url: Vec<u8>,
    pub pairs: Vec<(Vec<u8>, Vec<u8>)>,
    pub body: Vec<u8>,
    pub content_length: usize,
    pub user: Option<Vec<u8>>,
    pub password: Option<Vec<u8>>,
}

/// URL parameter pairs, as sequences.
pub open spec fn pairs_view(ps: Seq<(Vec<u8>, Vec<u8>)>) -> Seq<(Seq<u8>, Seq<u8>)> {
    Seq::new(ps.len(), |i: int| (ps[i].0@, ps[i].1@))
}

/// The parameter name `database`.
pub open spec fn database_key() -> Seq<u8> {
    seq![100u8, 97u8, 116u8, 97u8, 98u8, 97u8, 115u8, 101u8]
}

/// The parameter name `readonly`.
pub open spec fn readonly_key() -> Seq<u8> {
    seq![114u8, 101u8, 97u8, 100u8, 111u8, 110u8, 108u8, 121u8]
}

/// The parameter name `compress`.
pub open spec fn compress_key() -> Seq<u8> {
    seq![99u8, 111u8, 109u8, 112u8, 114u8, 101u8, 115u8, 115u8]
}

/// The parameter name `query`.
pub open spec fn query_key() -> Seq<u8> {
    seq![113u8, 117u8, 101u8, 114u8, 121u8]
}

/// The parameter value `1`.
pub open spec fn one_value() -> Seq<u8> {
    seq![49u8]
}

/// The trailing text ` FORMAT RowBinary`, requesting the binary row format.
pub open spec fn format_suffix() -> Seq<u8> {
    seq![
        32u8,
        70u8,
        79u8,
        82u8,
        77u8,
        65u8,
        84u8,
        32u8,
        82u8,
        111u8,
        119u8,
        66u8,
        105u8,
        110u8,
        97u8,
        114u8,
        121u8,
    ]
}

/// POST is used unless the operation is read-only and the query text is
/// short enough for a URL.
pub open spec fn spec_use_post(read_only: bool, query_len: nat) -> bool {
    !read_only || query_len > MAX_QUERY_LEN_TO_USE_GET
}

/// The URL parameters this layer sets, in order: `database` if configured,
/// `readonly=1` for read-only POSTs, `compress=1` if compression is
/// enabled, `query=<text>` for GET, then the client's extra options.
pub open spec fn spec_pairs(client: Client, read_only: bool, query: Seq<u8>) -> Seq<
    (Seq<u8>, Seq<u8>),
> {
    let db = match client.database {
        Some(d) => seq![(database_key(), d@)],
        None => Seq::<(Seq<u8>, Seq<u8>)>::empty(),
    };
    let ro = if spec_use_post(read_only, query.len()) && read_only {
        seq![(readonly_key(), one_value())]
    } else {
        Seq::<(Seq<u8>, Seq<u8>)>::empty()
    };
    let cp = if client.compress_lz4 {
        seq![(compress_key(), one_value())]
    } else {
        Seq::<(Seq<u8>, Seq<u8>)>::empty()
    };
    let qp = if !spec_use_post(read_only, query.len()) {
        seq![(query_key(), query)]
    } else {
        Seq::<(Seq<u8>, Seq<u8>)>::empty()
    };
    db + ro + cp + qp + pairs_view(client.options@)
}

/// Whether parsing the base URL text succeeds. The result of
/// `url::Url::parse` depends on the text alone, so the outcome has a name.
pub uninterp spec fn url_parse_ok(s: Seq<u8>) -> bool;

/// Relies on url::Url::parse for the base URL validity check that guards
/// dispatch: parse success is a function of the text; bytes that are not
/// UTF-8 are no URL.
#[verifier::external_body]
fn base_url_accepted(s: &Vec<u8>) -> (r: bool)
    ensures
        r == url_parse_ok(s@),
{
    match std::str::from_utf8(s.as_slice()) {
        Ok(t) => url::Url::parse(t).is_ok(),
        Err(_) => false,
    }
}

fn copy_bytes(v: &Vec<u8>) -> (r: Vec<u8>)
    ensures
        r@ == v@,
{
    vstd::slice::slice_to_vec(v.as_slice())
}

fn database_key_bytes() -> (r: Vec<u8>)
    ensures
        r@ == database_key(),
{
    let mut v: Vec<u8> = Vec::new();
    v.push(100);
    v.push(97);
    v.push(116);
    v.push(97);
    v.push(98);
    v.push(97);
    v.push(115);
    v.push(101);
    proof {
        assert(v@ =~= database_key());
    }
    v
}

fn readonly_key_bytes() -> (r: Vec<u8>)
    ensures
        r@ == readonly_key(),
{
    let mut v: Vec<u8> = Vec::new();
    v.push(114);
    v.push(101);
    v.push(97);
    v.push(100);
    v.push(111);
    v.push(110);
    v.push(108);
    v.push(121);
    proof {
        assert(v@ =~= readonly_key());
    }
    v
}

fn compress_key_bytes() -> (r: Vec<u8>)
    ensures
        r@ == compress_key(),
{
    let mut v: Vec<u8> = Vec::new();
    v.push(99);
    v.push(111);
    v.push(109);
    v.push(112);
    v.push(114);
    v.push(101);
    v.push(115);
    v.push(115);
    proof {
        assert(v@ =~= compress_key());
    }
    v
}

fn query_key_bytes() -> (r: Vec<u8>)
    ensures
        r@ == query_key(),
{
    let mut v: Vec<u8> = Vec::new();
    v.push(113);
    v.push(117);
    v.push(101);
    v.push(114);
    v.push(121);
    proof {
        assert(v@ =~= query_key());
    }
    v
}

fn one_value_bytes() -> (r: Vec<u8>)
    ensures
        r@ == one_value(),
{
    let mut v: Vec<u8> = Vec::new();
    v.push(49);
    proof {
        assert(v@ =~= one_value());
    }
    v
}

/// Writes the trailing ` FORMAT RowBinary` text.
fn format_suffix_bytes() -> (r: Vec<u8>)
    ensures
        r@ == format_suffix(),
{
    let mut v: Vec<u8> = Vec::new();
    v.push(32);
    v.push(70);
    v.push(79);
    v.push(82);
    v.push(77);
    v.push(65);
    v.push(84);
    v.push(32);
    v.push(82);
    v.push(111);
    v.push(119);
    v.push(66);
    v.push(105);
    v.push(110);
    v.push(97);
    v.push(114);
    v.push(121);
    proof {
        assert(v@ =~= format_suffix());
    }
    v
}

/// One query in the making: the client settings it will run under and the
/// SQL template with its bound arguments.
pub struct Query {
    pub client: Client,
    pub sql: SqlBuilder,
}

impl Query {
    pub fn new(client: Client, template: &str) -> (r: Self)
        ensures
            r.client == client,
            r.sql.template@ == template.spec_bytes(),
            r.sql.args@.len() == 0,
            r.sql.fields is None,
    {
        let tb = template.as_bytes_vec();
        Query { client, sql: SqlBuilder::new(tb) }
    }

    /// Binds `value` to the next `?` in the query, escaped by its kind.
    ///
    /// The query must not hold any extra `?`, even inside a string
    /// literal: every `?` counts as a placeholder.
    pub fn bind(self, value: BindValue) -> (r: Self)
        ensures
            r.client == self.client,
            r.sql.template == self.sql.template,
            r.sql.fields == self.sql.fields,
            frags_view(r.sql.args@) == frags_view(self.sql.args@) + seq![spec_escaped(value)],
    {
        let mut s = self;
        s.sql.bind_arg(value);
        s
    }

    /// Decides the transport shape of this query: finishes the SQL text,
    /// validates the base URL before any network activity, chooses GET or
    /// POST, and lays out parameters, body, content length and credential
    /// headers.
    pub fn do_execute(self, read_only: bool) -> (r: Result<RequestPlan, Error>)
        ensures
            match spec_subst(
                self.sql.template@,
                frags_view(self.sql.args@),
                fields_view(self.sql.fields),
            ) {
                None => r matches Err(Error::BindMismatch),
                Some(q) => {
                    if !url_parse_ok(self.client.url@) {
                        r matches Err(Error::InvalidParams)
                    } else {
                        r matches Ok(p) && p.method == (if spec_use_post(read_only, q.len()) {
                            HttpMethod::Post
                        } else {
                            HttpMethod::Get
                        }) && p.url@ == self.client.url@ && pairs_view(p.pairs@) == spec_pairs(
                            self.client,
                            read_only,
                            q,
                        ) && p.body@ == (if spec_use_post(read_only, q.len()) {
                            q
                        } else {
                            Seq::<u8>::empty()
                        }) && p.content_length == p.body@.len() && p.user == self.client.user
                            && p.password == self.client.password
                    }
                },
            },
    {
        let query = match self.sql.finish() {
            Ok(q) => q,
            Err(e) => {
                return Err(e);
            },
        };
        if !base_url_accepted(&self.client.url) {
            return Err(Error::InvalidParams);
        }
        let use_post = !read_only || query.len() > MAX_QUERY_LEN_TO_USE_GET;
        let ghost qv = query@;
        let mut pairs: Vec<(Vec<u8>, Vec<u8>)> = Vec::new();
        match &self.client.database {
            Some(d) => {
                pairs.push((database_key_bytes(), copy_bytes(d)));
            },
            None => {},
        }
        if use_post && read_only {
            pairs.push((readonly_key_bytes(), one_value_bytes()));
        }
        if self.client.compress_lz4 {
            pairs.push((compress_key_bytes(), one_value_bytes()));
        }
        if !use_post {
            pairs.push((query_key_bytes(), copy_bytes(&query)));
        }
        let ghost fixed = pairs_view(pairs@);
        let mut i: usize = 0;
        while i < self.client.options.len()
            invariant
                i <= self.client.options@.len(),
                pairs_view(pairs@) == fixed + pairs_view(self.client.options@.take(i as int)),
            decreases self.client.options@.len() - i,
        {
            let name = copy_bytes(&self.client.options[i].0);
            let value = copy_bytes(&self.client.options[i].1);
            pairs.push((name, value));
            proof {
                assert(name@ == self.client.options@[i as int].0@);
                assert(value@ == self.client.options@[i as int].1@);
                assert(pairs_view(pairs@) =~~= fixed + pairs_view(
                    self.client.options@.take(i as int),
                ) + seq![(name@, value@)]);
                assert(self.client.options@.take(i + 1) =~= self.client.options@.take(
                    i as int,
                ).push(self.client.options@[i as int]));
                assert(pairs_view(self.client.options@.take(i + 1)) =~~= pairs_view(
                    self.client.options@.take(i as int),
                ) + seq![(name@, value@)]);
                assert(pairs_view(pairs@) =~~= fixed + pairs_view(
                    self.client.options@.take(i + 1),
                ));
            }
            i = i + 1;
        }
        proof {
            assert(self.client.options@.take(self.client.options@.len() as int)
                =~= self.client.options@);
            assert(pairs_view(pairs@) =~~= spec_pairs(self.client, read_only, qv));
        }
        let method = if use_post {
            HttpMethod::Post
        } else {
            HttpMethod::Get
        };
        let (body, content_length) = if use_post {
            let len = query.len();
            (query, len)
        } else {
            (Vec::<u8>::new(), 0usize)
        };
        Ok(
            RequestPlan {
                method,
                url: self.client.url,
                pairs,
                body,
                content_length,
                user: self.client.user,
                password: self.client.password,
            },
        )
    }

    /// Prepares a row-returning execution: expands `?fields` with the
    /// schema's column list, asks for the binary row format, plans the
    /// read-only request, and opens a cursor that decodes by the same
    /// schema.
    pub fn fetch(self, schema: Schema) -> (r: Result<(RequestPlan, RowCursor), Error>)
        requires
            schema.wf(),
        ensures
            match spec_subst(
                self.sql.template@ + format_suffix(),
                frags_view(self.sql.args@),
                Some(spec_columns(&schema)),
            ) {
                None => r matches Err(Error::BindMismatch),
                Some(q) => {
                    if !url_parse_ok(self.client.url@) {
                        r matches Err(Error::InvalidParams)
                    } else {
                        r matches Ok(pc) && pc.0.method == (if spec_use_post(true, q.len()) {
                            HttpMethod::Post
                        } else {
                            HttpMethod::Get
                        }) && pc.0.url@ == self.client.url@ && pairs_view(pc.0.pairs@)
                            == spec_pairs(self.client, true, q) && pc.0.body@ == (if spec_use_post(
                            true,
                            q.len(),
                        ) {
                            q
                        } else {
                            Seq::<u8>::empty()
                        }) && pc.0.content_length == pc.0.body@.len() && pc.0.user
                            == self.client.user && pc.0.password == self.client.password
                            && pc.1.wf() && pc.1.schema_spec() == schema && pc.1.buffered()
                            == Seq::<u8>::empty()
                    }
                },
            },
    {
        let mut s = self;
        s.sql.bind_fields(&schema);
        let suffix = format_suffix_bytes();
        s.sql.append(&suffix);
        match s.do_execute(true) {
            Ok(plan) => {
                let cur = RowCursor::new(schema);
                Ok((plan, cur))
            },
            Err(e) => Err(e),
        }
    }
}

/// The single-row rule: a first row is the result, no first row is the
/// distinguished row-not-found failure.
pub fn single_row(first: Option<Record>) -> (r: Result<Record, Error>)
    ensures
        match first {
            Some(rec) => r matches Ok(x) && x == rec,
            None => r matches Err(Error::RowNotFound),
        },
{
    match first {
        Some(rec) => Ok(rec),
        None => Err(Error::RowNotFound),
    }
}

} // verus!
