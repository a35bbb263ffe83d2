//! The request/response envelope.
//!
//! Every post-handshake exchange sends `{"command": ..., "payload": ...}`
//! and receives `{"statuscode": ..., "payload": ...}`. The status code
//! arrives either as the number `200`/`400`/`500` or as the string
//! `"200"`/`"400"`/`"500"`; both forms decode to the same variant, and any
//! other value is rejected. The records in this module are the payload
//! shapes the catalogue of commands uses.

use vstd::prelude::*;

verus! {

use vstd::utf8::encode_utf8;
use vstd::string::{StringExecFns, StringSliceAdditionalSpecFns};
use crate::json::{Jv, JsonValue, jv_text, obj_get, num_u64, chars_dec_value, is_digit_char};
use crate::jparse::jparse;
use crate::text::{ascii_chars_of, str_eq};
use crate::frame::{dec_digits, dec_value, all_dec_digits};

broadcast use vstd::seq::group_seq_axioms;

/// The server's verdict on one request.
#[derive(Debug, Clone, Copy, PartialEq, Eq, Structural)]
pub enum StatusCode {
    /// 200: the command succeeded; the payload is the result.
    Success,
    /// 400: the command failed; the payload describes why.
    RequestFailure,
    /// 500: the server failed; the payload describes why.
    InternalServerError,
}

/// The decimal token of an unsigned integer, as characters.
pub open spec fn dec_token(n: nat) -> Seq<char> {
    ascii_chars_of(dec_digits(n))
}

/// What a status code number decodes to.
pub open spec fn status_of_u64(n: u64) -> Option<StatusCode> {
    if n == 200 {
        Some(StatusCode::Success)
    } else if n == 400 {
        Some(StatusCode::RequestFailure)
    } else if n == 500 {
        Some(StatusCode::InternalServerError)
    } else {
        None
    }
}

/// What a status code text decodes to.
pub open spec fn status_of_text(s: Seq<char>) -> Option<StatusCode> {
    if s == "200"@ {
        Some(StatusCode::Success)
    } else if s == "400"@ {
        Some(StatusCode::RequestFailure)
    } else if s == "500"@ {
        Some(StatusCode::InternalServerError)
    } else {
        None
    }
}

/// What a `statuscode` field decodes to: a whole-number token or the
/// string form of the three codes; anything else is invalid.
pub open spec fn status_of(v: Jv) -> Option<StatusCode> {
    match v {
        Jv::Num(tok) => match num_u64(tok) {
            Some(n) => status_of_u64(n),
            None => None,
        },
        Jv::Str(s) => status_of_text(s),
        _ => None,
    }
}

impl StatusCode {
    /// Decodes a `statuscode` field.
    pub fn from_json(v: &JsonValue) -> (r: Option<StatusCode>)
        ensures
            r == status_of(v.deep()),
    {
        match v.as_u64() {
            Some(n) => {
                if n == 200 {
                    Some(StatusCode::Success)
                } else if n == 400 {
                    Some(StatusCode::RequestFailure)
                } else if n == 500 {
                    Some(StatusCode::InternalServerError)
                } else {
                    None
                }
            },
            None => {
                match v.as_str() {
                    Some(s) => {
                        if str_eq(s.as_str(), "200") {
                            Some(StatusCode::Success)
                        } else if str_eq(s.as_str(), "400") {
                            Some(StatusCode::RequestFailure)
                        } else if str_eq(s.as_str(), "500") {
                            Some(StatusCode::InternalServerError)
                        } else {
                            None
                        }
                    },
                    None => None,
                }
            },
        }
    }
}

/// The decimal token of `n` spells the digit string of `n`.
proof fn lemma_dec_token_value(n: u64)
    ensures
        num_u64(dec_token(n as nat)) == Some(n),
{
    let bytes = dec_digits(n as nat);
    let tok = dec_token(n as nat);
    crate::frame::lemma_dec_digits_are_digits(n as nat);
    crate::frame::lemma_dec_round_trip(n as nat);
    assert forall|i: int| 0 <= i < tok.len() implies is_digit_char(#[trigger] tok[i]) by {
        assert(tok[i] == bytes[i] as char);
        assert(crate::frame::is_dec_digit(bytes[i]));
    }
    lemma_chars_dec_value_bytes(bytes);
    assert(chars_dec_value(tok) == n);
}

/// Reading digits as characters or as bytes gives the same value.
proof fn lemma_chars_dec_value_bytes(bytes: Seq<u8>)
    requires
        all_dec_digits(bytes),
    ensures
        chars_dec_value(ascii_chars_of(bytes)) == dec_value(bytes),
    decreases bytes.len(),
{
    if bytes.len() > 0 {
        lemma_chars_dec_value_bytes(bytes.drop_last());
        assert(ascii_chars_of(bytes).drop_last() =~= ascii_chars_of(bytes.drop_last()));
        assert(ascii_chars_of(bytes).last() == bytes.last() as char);
        assert(crate::frame::is_dec_digit(bytes.last()));
        assert((bytes.last() as char) as u32 - '0' as u32 == bytes.last() - 0x30);
    }
}

/// The two wire forms of a status code always decode alike: the number
/// `n` and the string holding `n`'s decimal digits yield the same
/// verdict, valid for 200, 400 and 500 and invalid for everything else.
pub proof fn lemma_status_code_duality(n: u64)
    ensures
        status_of(Jv::Num(dec_token(n as nat))) == status_of(Jv::Str(dec_token(n as nat))),
        status_of(Jv::Num(dec_token(n as nat))) == status_of_u64(n),
{
    lemma_dec_token_value(n);
    let tok = dec_token(n as nat);
    reveal_strlit("200");
    reveal_strlit("400");
    reveal_strlit("500");
    lemma_dec_digits_of_hundreds();
    assert(dec_token(200) =~= "200"@);
    assert(dec_token(400) =~= "400"@);
    assert(dec_token(500) =~= "500"@);
    if n == 200 || n == 400 || n == 500 {
        assert(status_of(Jv::Num(tok)) == status_of_u64(n));
        assert("200"@ != "400"@ && "200"@ != "500"@ && "400"@ != "500"@) by {
            assert("200"@[0] == '2' && "400"@[0] == '4' && "500"@[0] == '5');
        }
        if n == 200 {
            assert(tok == "200"@);
            assert(status_of_text(tok) == Some(StatusCode::Success));
        } else if n == 400 {
            assert(tok == "400"@);
            assert(status_of_text(tok) == Some(StatusCode::RequestFailure));
        } else {
            assert(tok == "500"@);
            assert(status_of_text(tok) == Some(StatusCode::InternalServerError));
        }
        assert(status_of(Jv::Str(tok)) == status_of_u64(n));
    } else {
        if tok == "200"@ {
            lemma_dec_token_inj(n, 200);
        }
        if tok == "400"@ {
            lemma_dec_token_inj(n, 400);
        }
        if tok == "500"@ {
            lemma_dec_token_inj(n, 500);
        }
    }
}

/// The decimal digit strings of the three status codes.
proof fn lemma_dec_digits_of_hundreds()
    ensures
        dec_digits(200) == seq![0x32u8, 0x30u8, 0x30u8],
        dec_digits(400) == seq![0x34u8, 0x30u8, 0x30u8],
        dec_digits(500) == seq![0x35u8, 0x30u8, 0x30u8],
{
    assert(dec_digits(2) =~= seq![0x32u8]);
    assert(dec_digits(4) =~= seq![0x34u8]);
    assert(dec_digits(5) =~= seq![0x35u8]);
    assert(dec_digits(20) =~= dec_digits(2) + seq![0x30u8]);
    assert(dec_digits(40) =~= dec_digits(4) + seq![0x30u8]);
    assert(dec_digits(50) =~= dec_digits(5) + seq![0x30u8]);
    assert(dec_digits(200) =~= dec_digits(20) + seq![0x30u8]);
    assert(dec_digits(400) =~= dec_digits(40) + seq![0x30u8]);
    assert(dec_digits(500) =~= dec_digits(50) + seq![0x30u8]);
    assert(dec_digits(200) =~= seq![0x32u8, 0x30u8, 0x30u8]);
    assert(dec_digits(400) =~= seq![0x34u8, 0x30u8, 0x30u8]);
    assert(dec_digits(500) =~= seq![0x35u8, 0x30u8, 0x30u8]);
}

/// Distinct numbers have distinct decimal tokens.
proof fn lemma_dec_token_inj(a: u64, b: u64)
    requires
        dec_token(a as nat) == dec_token(b as nat),
    ensures
        a == b,
{
    let da = dec_digits(a as nat);
    let db = dec_digits(b as nat);
    crate::frame::lemma_dec_digits_are_digits(a as nat);
    crate::frame::lemma_dec_digits_are_digits(b as nat);
    assert(ascii_chars_of(da).len() == ascii_chars_of(db).len());
    assert forall|i: int| 0 <= i < da.len() implies #[trigger] da[i] == db[i] by {
        assert(ascii_chars_of(da)[i] == ascii_chars_of(db)[i]);
        assert(da[i] as char == db[i] as char);
        assert(crate::frame::is_dec_digit(da[i]));
        assert(crate::frame::is_dec_digit(db[i]));
        assert((da[i] as char) as u8 == da[i]);
        assert((db[i] as char) as u8 == db[i]);
    }
    assert(da =~= db);
    crate::frame::lemma_dec_round_trip(a as nat);
    crate::frame::lemma_dec_round_trip(b as nat);
}

/// One request: a fixed uppercase command token and an optional payload.
pub struct Request {
    pub command: String,
    pub payload: Option<JsonValue>,
}

/// The document a request serializes to: `{"command": ..., "payload": ...}`
/// with a `null` payload when none is given.
pub open spec fn request_jv(command: Seq<char>, payload: Option<JsonValue>) -> Jv {
    Jv::Obj(
        seq![
            ("command"@, Jv::Str(command)),
            (
                "payload"@,
                match payload {
                    Some(p) => p.deep(),
                    None => Jv::Null,
                },
            ),
        ],
    )
}

impl Request {
    /// A fresh request.
    pub fn new(command: &str, payload: Option<JsonValue>) -> (r: Request)
        ensures
            r.command@ == command@,
            r.payload == payload,
    {
        Request { command: String::from_str(command), payload }
    }

    /// The wire text of this request.
    pub fn to_text(self) -> (r: String)
        ensures
            r@ == jv_text(request_jv(self.command@, self.payload)),
    {
        let ghost cmd = self.command@;
        let ghost pl = self.payload;
        let p = match self.payload {
            Some(v) => v,
            None => JsonValue::Null,
        };
        let mut fields: Vec<(String, JsonValue)> = Vec::new();
        fields.push((String::from_str("command"), JsonValue::Str(self.command)));
        fields.push((String::from_str("payload"), p));
        let obj = JsonValue::Obj(fields);
        proof {
            assert(obj.deep() is Obj);
            assert(obj.deep()->Obj_0.len() == 2);
            assert(obj.deep()->Obj_0[0] == (fields@[0].0@, fields@[0].1.deep()));
            assert(obj.deep()->Obj_0[1] == (fields@[1].0@, fields@[1].1.deep()));
            assert(fields@[0].0@ == "command"@);
            assert(fields@[0].1.deep() == Jv::Str(cmd));
            assert(fields@[1].0@ == "payload"@);
            assert(fields@[1].1.deep() == match pl {
                Some(q) => q.deep(),
                None => Jv::Null,
            });
            assert(obj.deep()->Obj_0 =~= request_jv(cmd, pl)->Obj_0);
            assert(obj.deep() == request_jv(cmd, pl));
        }
        obj.to_text()
    }
}

/// Failures in reading a response: the text was not JSON at all, or it was
/// not an envelope with a valid status code and a payload. Both are local
/// decode errors, distinct from a failure the server reports.
#[derive(Debug, Clone, Copy, PartialEq, Eq, Structural)]
pub enum EnvelopeError {
    NotJson,
    NotAResponse,
}

/// One response: the server's verdict and the payload it sent along.
pub struct Response {
    pub statuscode: StatusCode,
    pub payload: JsonValue,
}

/// What a parsed response document means: its status code and payload,
/// when it is an object with a decodable `statuscode` and a `payload`.
pub open spec fn response_model(v: Jv) -> Option<(StatusCode, Jv)> {
    match v {
        Jv::Obj(ms) => match obj_get(ms, "statuscode"@) {
            Some(sv) => match status_of(sv) {
                Some(sc) => match obj_get(ms, "payload"@) {
                    Some(p) => Some((sc, p)),
                    None => None,
                },
                None => None,
            },
            None => None,
        },
        _ => None,
    }
}

impl Response {
    /// Reads a response from its wire text.
    pub fn parse(text: &str) -> (r: Result<Response, EnvelopeError>)
        ensures
            match jparse(encode_utf8(text@)) {
                None => r matches Err(EnvelopeError::NotJson),
                Some(v) => match response_model(v) {
                    Some((sc, p)) => r matches Ok(resp) && resp.statuscode == sc
                        && resp.payload.deep() == p,
                    None => r matches Err(EnvelopeError::NotAResponse),
                },
            },
    {
        match JsonValue::parse(text) {
            None => Err(EnvelopeError::NotJson),
            Some(v) => Response::from_value(v),
        }
    }

    /// Reads a response from an already-parsed document.
    pub fn from_value(v: JsonValue) -> (r: Result<Response, EnvelopeError>)
        ensures
            match response_model(v.deep()) {
                Some((sc, p)) => r matches Ok(resp) && resp.statuscode == sc
                    && resp.payload.deep() == p,
                None => r matches Err(EnvelopeError::NotAResponse),
            },
    {
        let sc = match v.get("statuscode") {
            Some(sv) => match StatusCode::from_json(sv) {
                Some(sc) => sc,
                None => {
                    return Err(EnvelopeError::NotAResponse);
                },
            },
            None => {
                return Err(EnvelopeError::NotAResponse);
            },
        };
        match v.take_field("payload") {
            Some(p) => Ok(Response { statuscode: sc, payload: p }),
            None => Err(EnvelopeError::NotAResponse),
        }
    }
}

impl Response {
    /// The command's outcome: the payload on success, and the reported
    /// code with the payload on either failure code. The two failure
    /// codes differ only in what is reported; neither ends the
    /// connection.
    pub fn into_result(self) -> (r: Result<JsonValue, (StatusCode, JsonValue)>)
        ensures
            self.statuscode is Success ==> (r matches Ok(p) && p == self.payload),
            !(self.statuscode is Success) ==> (r matches Err(e) && e.0 == self.statuscode && e.1
                == self.payload),
    {
        match self.statuscode {
            StatusCode::Success => Ok(self.payload),
            sc => Err((sc, self.payload)),
        }
    }
}

/// An array document holding copies of the given strings.
pub fn string_array(items: &Vec<String>) -> (r: JsonValue)
    ensures
        r.deep() is Arr,
        r.deep()->Arr_0.len() == items@.len(),
        forall|i: int|
            0 <= i < items@.len() ==> #[trigger] r.deep()->Arr_0[i] == Jv::Str(items@[i]@),
{
    let mut elems: Vec<JsonValue> = Vec::new();
    let mut i: usize = 0;
    while i < items.len()
        invariant
            i <= items@.len(),
            elems@.len() == i,
            forall|t: int| 0 <= t < i ==> #[trigger] elems@[t].deep() == Jv::Str(items@[t]@),
        decreases items@.len() - i,
    {
        elems.push(JsonValue::Str(items[i].clone()));
        i = i + 1;
    }
    let r = JsonValue::Arr(elems);
    proof {
        assert(r.deep() is Arr);
        assert(r.deep()->Arr_0.len() == items@.len());
        assert forall|i: int| 0 <= i < items@.len() implies #[trigger] r.deep()->Arr_0[i]
            == Jv::Str(items@[i]@) by {
            assert(r.deep()->Arr_0[i] == elems@[i].deep());
        }
    }
    r
}

/// The strings of an all-string array document, if it is one.
pub open spec fn str_list_of(v: Jv) -> Option<Seq<Seq<char>>> {
    match v {
        Jv::Arr(es) => {
            if forall|i: int| 0 <= i < es.len() ==> (#[trigger] es[i]) is Str {
                Some(Seq::new(es.len(), |i: int| es[i]->Str_0))
            } else {
                None
            }
        },
        _ => None,
    }
}

/// Reads an array of strings.
pub fn string_list(v: &JsonValue) -> (r: Option<Vec<String>>)
    ensures
        match str_list_of(v.deep()) {
            Some(ss) => r matches Some(out) && out@.len() == ss.len() && (forall|i: int|
                0 <= i < ss.len() ==> (#[trigger] out@[i])@ == ss[i]),
            None => r is None,
        },
{
    match v {
        JsonValue::Arr(elems) => {
            let ghost es = v.deep()->Arr_0;
            proof {
                assert(v.deep() is Arr);
                assert(es.len() == elems@.len());
            }
            let mut out: Vec<String> = Vec::new();
            let mut i: usize = 0;
            while i < elems.len()
                invariant
                    i <= elems@.len(),
                    v.deep() is Arr,
                    es == v.deep()->Arr_0,
                    es.len() == elems@.len(),
                    forall|t: int| 0 <= t < es.len() ==> #[trigger] es[t] == elems@[t].deep(),
                    out@.len() == i,
                    forall|t: int| 0 <= t < i ==> (#[trigger] es[t]) is Str && out@[t]@
                        == es[t]->Str_0,
                decreases elems@.len() - i,
            {
                match &elems[i] {
                    JsonValue::Str(s) => {
                        out.push(s.clone());
                    },
                    _ => {
                        proof {
                            assert(!(es[i as int] is Str));
                        }
                        return None;
                    },
                }
                i = i + 1;
            }
            Some(out)
        },
        _ => None,
    }
}

/// The document for an array of strings.
pub open spec fn str_arr_jv(items: Seq<Seq<char>>) -> Jv {
    Jv::Arr(Seq::new(items.len(), |i: int| Jv::Str(items[i])))
}

/// The authentication payload: who is connecting, as what, with which
/// credential, speaking which protocol version.
pub struct AuthRequest {
    pub machine_identifier: String,
    pub machine_type: String,
    pub machine_authkey: String,
    pub machine_version: u16,
}

/// The document an authentication payload serializes to.
pub open spec fn auth_request_jv(a: AuthRequest) -> Jv {
    Jv::Obj(
        seq![
            ("machine_identifier"@, Jv::Str(a.machine_identifier@)),
            ("machine_type"@, Jv::Str(a.machine_type@)),
            ("machine_authkey"@, Jv::Str(a.machine_authkey@)),
            ("machine_version"@, Jv::Num(dec_token(a.machine_version as nat))),
        ],
    )
}

impl AuthRequest {
    /// A fresh authentication payload.
    pub fn new(
        machine_identifier: &str,
        machine_type: &str,
        machine_authkey: &str,
        machine_version: u16,
    ) -> (r: AuthRequest)
        ensures
            r.machine_identifier@ == machine_identifier@,
            r.machine_type@ == machine_type@,
            r.machine_authkey@ == machine_authkey@,
            r.machine_version == machine_version,
    {
        AuthRequest {
            machine_identifier: String::from_str(machine_identifier),
            machine_type: String::from_str(machine_type),
            machine_authkey: String::from_str(machine_authkey),
            machine_version,
        }
    }

    /// This payload as a document.
    pub fn to_value(self) -> (r: JsonValue)
        ensures
            r.deep() == auth_request_jv(self),
    {
        let ghost me = self;
        let version = JsonValue::from_u64(self.machine_version as u64);
        let mut fields: Vec<(String, JsonValue)> = Vec::new();
        fields.push((String::from_str("machine_identifier"), JsonValue::Str(self.machine_identifier)));
        fields.push((String::from_str("machine_type"), JsonValue::Str(self.machine_type)));
        fields.push((String::from_str("machine_authkey"), JsonValue::Str(self.machine_authkey)));
        fields.push((String::from_str("machine_version"), version));
        let obj = JsonValue::Obj(fields);
        proof {
            assert(obj.deep() is Obj);
            assert(obj.deep()->Obj_0.len() == 4);
            assert(obj.deep()->Obj_0[0] == (fields@[0].0@, fields@[0].1.deep()));
            assert(obj.deep()->Obj_0[1] == (fields@[1].0@, fields@[1].1.deep()));
            assert(obj.deep()->Obj_0[2] == (fields@[2].0@, fields@[2].1.deep()));
            assert(obj.deep()->Obj_0[3] == (fields@[3].0@, fields@[3].1.deep()));
            assert(obj.deep()->Obj_0 =~= auth_request_jv(me)->Obj_0);
            assert(obj.deep() == auth_request_jv(me));
        }
        obj
    }
}

/// The server's answer to authentication.
pub struct AuthResponse {
    pub auth_status: String,
    pub logon_message: String,
}

/// What an authentication answer document means.
pub open spec fn auth_response_of(v: Jv) -> Option<(Seq<char>, Seq<char>)> {
    match v {
        Jv::Obj(ms) => match str_field(ms, "auth_status"@) {
            Some(a) => match str_field(ms, "logon_message"@) {
                Some(l) => Some((a, l)),
                None => None,
            },
            None => None,
        },
        _ => None,
    }
}

impl AuthResponse {
    /// Reads an authentication answer.
    pub fn from_json(v: &JsonValue) -> (r: Option<AuthResponse>)
        ensures
            match auth_response_of(v.deep()) {
                Some((a, l)) => r matches Some(x) && x.auth_status@ == a && x.logon_message@
                    == l,
                None => r is None,
            },
    {
        let a = match get_str_field(v, "auth_status") {
            Some(s) => s.clone(),
            None => {
                return None;
            },
        };
        let l = match get_str_field(v, "logon_message") {
            Some(s) => s.clone(),
            None => {
                return None;
            },
        };
        Some(AuthResponse { auth_status: a, logon_message: l })
    }
}

/// The build-request payload: which package, release or cross build.
pub struct Build {
    pub pkgname: String,
    pub buildtype: String,
}

/// The document a build request serializes to.
pub open spec fn build_jv(b: Build) -> Jv {
    Jv::Obj(seq![("pkgname"@, Jv::Str(b.pkgname@)), ("buildtype"@, Jv::Str(b.buildtype@))])
}

impl Build {
    /// A fresh build request: `RELEASE` when a release build is asked
    /// for, `CROSS` otherwise.
    pub fn new(pkgname: &str, release: bool) -> (r: Build)
        ensures
            r.pkgname@ == pkgname@,
            r.buildtype@ == if release {
                "RELEASE"@
            } else {
                "CROSS"@
            },
    {
        Build {
            pkgname: String::from_str(pkgname),
            buildtype: if release {
                String::from_str("RELEASE")
            } else {
                String::from_str("CROSS")
            },
        }
    }

    /// This payload as a document.
    pub fn to_value(self) -> (r: JsonValue)
        ensures
            r.deep() == build_jv(self),
    {
        let ghost me = self;
        let mut fields: Vec<(String, JsonValue)> = Vec::new();
        fields.push((String::from_str("pkgname"), JsonValue::Str(self.pkgname)));
        fields.push((String::from_str("buildtype"), JsonValue::Str(self.buildtype)));
        let obj = JsonValue::Obj(fields);
        proof {
            assert(obj.deep() is Obj);
            assert(obj.deep()->Obj_0.len() == 2);
            assert(obj.deep()->Obj_0[0] == (fields@[0].0@, fields@[0].1.deep()));
            assert(obj.deep()->Obj_0[1] == (fields@[1].0@, fields@[1].1.deep()));
            assert(obj.deep()->Obj_0 =~= build_jv(me)->Obj_0);
            assert(obj.deep() == build_jv(me));
        }
        obj
    }
}

/// The solution payload: an ordered list of build groups, each an ordered
/// list of package names.
pub struct Solution {
    pub solution: Vec<Vec<String>>,
    pub buildtype: String,
}

/// The document a solution serializes to.
pub open spec fn solution_jv(s: Solution) -> Jv {
    Jv::Obj(
        seq![
            (
                "solution"@,
                Jv::Arr(
                    Seq::new(
                        s.solution.deep_view().len(),
                        |i: int| str_arr_jv(s.solution.deep_view()[i]),
                    ),
                ),
            ),
            ("buildtype"@, Jv::Str(s.buildtype@)),
        ],
    )
}

impl Solution {
    /// A fresh solution payload.
    pub fn new(solution: Vec<Vec<String>>, release: bool) -> (r: Solution)
        ensures
            r.solution == solution,
            r.buildtype@ == if release {
                "RELEASE"@
            } else {
                "CROSS"@
            },
    {
        Solution {
            solution,
            buildtype: if release {
                String::from_str("RELEASE")
            } else {
                String::from_str("CROSS")
            },
        }
    }

    /// This payload as a document.
    pub fn to_value(self) -> (r: JsonValue)
        ensures
            r.deep() == solution_jv(self),
    {
        let ghost me = self;
        let mut rows: Vec<JsonValue> = Vec::new();
        let mut i: usize = 0;
        while i < self.solution.len()
            invariant
                i <= self.solution@.len(),
                rows@.len() == i,
                forall|t: int|
                    0 <= t < i ==> #[trigger] rows@[t].deep() == str_arr_jv(
                        self.solution.deep_view()[t],
                    ),
            decreases self.solution@.len() - i,
        {
            let row = string_array(&self.solution[i]);
            proof {
                assert(row.deep()->Arr_0 =~= str_arr_jv(self.solution.deep_view()[i as int])->Arr_0);
                assert(row.deep() == str_arr_jv(self.solution.deep_view()[i as int]));
            }
            rows.push(row);
            i = i + 1;
        }
        let arr = JsonValue::Arr(rows);
        let mut fields: Vec<(String, JsonValue)> = Vec::new();
        fields.push((String::from_str("solution"), arr));
        fields.push((String::from_str("buildtype"), JsonValue::Str(self.buildtype)));
        let obj = JsonValue::Obj(fields);
        proof {
            assert(obj.deep() is Obj);
            assert(obj.deep()->Obj_0.len() == 2);
            assert(obj.deep()->Obj_0[0] == (fields@[0].0@, fields@[0].1.deep()));
            assert(obj.deep()->Obj_0[1] == (fields@[1].0@, fields@[1].1.deep()));
            let a0 = fields@[0].1.deep()->Arr_0;
            assert(fields@[0].1.deep() is Arr);
            assert(me.solution.deep_view().len() == me.solution@.len());
            assert(a0.len() == me.solution@.len());
            assert forall|t: int| 0 <= t < a0.len() implies a0[t] == str_arr_jv(
                me.solution.deep_view()[t],
            ) by {
                assert(a0[t] == rows@[t].deep());
            }
            assert(a0 =~= solution_jv(me)->Obj_0[0].1->Arr_0);
            assert(fields@[0].1.deep() == solution_jv(me)->Obj_0[0].1);
            assert(obj.deep()->Obj_0 =~= solution_jv(me)->Obj_0);
            assert(obj.deep() == solution_jv(me));
        }
        obj
    }
}

/// The pieces of one solution line: split at every `;`, empty pieces
/// kept.
pub open spec fn split_semis(line: Seq<char>) -> Seq<Seq<char>>
    decreases line.len(),
    via split_semis_dec
{
    match crate::text::first_char_idx(line, ';') {
        None => seq![line],
        Some(k) => seq![line.take(k)] + split_semis(line.skip(k + 1)),
    }
}

#[via_fn]
proof fn split_semis_dec(line: Seq<char>) {
    crate::pkgbuild::lemma_first_char_range(line, ';');
}

/// What a solution file means: one group per line, each group the line's
/// `;`-separated tokens with surrounding blanks removed.
pub open spec fn solution_of(text: Seq<char>) -> Seq<Seq<Seq<char>>> {
    Seq::new(
        crate::pkgbuild::lines_of(text).len(),
        |i: int|
            split_semis(crate::pkgbuild::lines_of(text)[i]).map_values(
                |p: Seq<char>| crate::text::trim_blanks_of(p),
            ),
    )
}

/// Reads a solution file into its build groups.
pub fn solution_groups(text: &str) -> (r: Vec<Vec<String>>)
    ensures
        r.deep_view() == solution_of(text@),
{
    let lines = crate::pkgbuild::split_text_lines(text);
    let ghost all = lines.deep_view();
    let mut out: Vec<Vec<String>> = Vec::new();
    let mut i: usize = 0;
    while i < lines.len()
        invariant
            i <= lines@.len(),
            all == lines.deep_view(),
            all.len() == lines@.len(),
            all == crate::pkgbuild::lines_of(text@),
            out@.len() == i,
            forall|t: int|
                0 <= t < i ==> (#[trigger] out@[t]).deep_view() == split_semis(
                    all[t],
                ).map_values(|p: Seq<char>| crate::text::trim_blanks_of(p)),
        decreases lines@.len() - i,
    {
        let group = split_line_tokens(&lines[i]);
        proof {
            assert(all[i as int] == lines@[i as int]@);
        }
        out.push(group);
        i = i + 1;
    }
    proof {
        assert(out.deep_view() =~= solution_of(text@)) by {
            assert(out.deep_view().len() == solution_of(text@).len());
            assert(forall|t: int|
                0 <= t < out@.len() ==> #[trigger] out.deep_view()[t] == out@[t].deep_view());
        }
    }
    out
}

/// Splits one line into its trimmed tokens.
fn split_line_tokens(line: &String) -> (r: Vec<String>)
    ensures
        r.deep_view() == split_semis(line@).map_values(
            |p: Seq<char>| crate::text::trim_blanks_of(p),
        ),
{
    let mut out: Vec<String> = Vec::new();
    let mut rest = line.clone();
    let ghost mut consumed: Seq<Seq<char>> = Seq::empty();
    proof {
        assert(consumed + split_semis(rest@) =~= split_semis(line@));
        assert(out.deep_view() =~= consumed.map_values(
            |p: Seq<char>| crate::text::trim_blanks_of(p),
        ));
    }
    loop
        invariant
            split_semis(line@) == consumed + split_semis(rest@),
            out.deep_view() == consumed.map_values(
                |p: Seq<char>| crate::text::trim_blanks_of(p),
            ),
        decreases rest@.len(),
    {
        let ghost cur = rest@;
        proof {
            crate::pkgbuild::lemma_first_char_range(cur, ';');
        }
        match crate::text::split_once_char(rest.as_str(), 0x3B) {
            Some((head, tail)) => {
                let ghost k = crate::text::first_char_idx(cur, ';')->Some_0;
                let token = crate::text::trim_blanks(head.as_str());
                let ghost pre_out = out.deep_view();
                let ghost pre_consumed = consumed;
                out.push(token);
                proof {
                    assert(split_semis(cur) == seq![cur.take(k)] + split_semis(cur.skip(k + 1)));
                    consumed = pre_consumed.push(cur.take(k));
                    assert(consumed + split_semis(cur.skip(k + 1)) =~= split_semis(line@));
                    assert(out.deep_view() =~= pre_out.push(token@));
                    assert(consumed.map_values(|p: Seq<char>| crate::text::trim_blanks_of(p))
                        =~= pre_consumed.map_values(
                        |p: Seq<char>| crate::text::trim_blanks_of(p),
                    ).push(crate::text::trim_blanks_of(cur.take(k))));
                    assert(out.deep_view() =~= consumed.map_values(
                        |p: Seq<char>| crate::text::trim_blanks_of(p),
                    ));
                }
                rest = tail;
            },
            None => {
                let token = crate::text::trim_blanks(rest.as_str());
                let ghost pre_out = out.deep_view();
                let ghost pre_consumed = consumed;
                out.push(token);
                proof {
                    assert(split_semis(cur) =~= seq![cur]);
                    consumed = pre_consumed.push(cur);
                    assert(consumed =~= split_semis(line@));
                    assert(out.deep_view() =~= pre_out.push(token@));
                    assert(consumed.map_values(|p: Seq<char>| crate::text::trim_blanks_of(p))
                        =~= pre_consumed.map_values(
                        |p: Seq<char>| crate::text::trim_blanks_of(p),
                    ).push(crate::text::trim_blanks_of(cur)));
                    assert(out.deep_view() =~= split_semis(line@).map_values(
                        |p: Seq<char>| crate::text::trim_blanks_of(p),
                    ));
                }
                return out;
            },
        }
    }
}

/// The job-log request payload: which job, from which line on.
pub struct JobRequest {
    pub jobid: String,
    pub offset: usize,
}

/// The document a job-log request serializes to.
pub open spec fn job_request_jv(j: JobRequest) -> Jv {
    Jv::Obj(
        seq![("jobid"@, Jv::Str(j.jobid@)), ("offset"@, Jv::Num(dec_token(j.offset as nat)))],
    )
}

impl JobRequest {
    /// A fresh job-log request.
    pub fn new(jobid: &str, offset: usize) -> (r: JobRequest)
        ensures
            r.jobid@ == jobid@,
            r.offset == offset,
    {
        JobRequest { jobid: String::from_str(jobid), offset }
    }

    /// This payload as a document.
    pub fn to_value(self) -> (r: JsonValue)
        ensures
            r.deep() == job_request_jv(self),
    {
        let ghost me = self;
        let offset = JsonValue::from_u64(self.offset as u64);
        let mut fields: Vec<(String, JsonValue)> = Vec::new();
        fields.push((String::from_str("jobid"), JsonValue::Str(self.jobid)));
        fields.push((String::from_str("offset"), offset));
        let obj = JsonValue::Obj(fields);
        proof {
            assert(obj.deep() is Obj);
            assert(obj.deep()->Obj_0.len() == 2);
            assert(obj.deep()->Obj_0[0] == (fields@[0].0@, fields@[0].1.deep()));
            assert(obj.deep()->Obj_0[1] == (fields@[1].0@, fields@[1].1.deep()));
            assert(obj.deep()->Obj_0 =~= job_request_jv(me)->Obj_0);
            assert(obj.deep() == job_request_jv(me));
        }
        obj
    }
}

/// The announcement of an extra-source transfer: what will be sent, what
/// it is, and how many bytes will follow raw on the connection.
pub struct ExtraSourceSubmit {
    pub description: String,
    pub filename: String,
    pub filelen: String,
}

/// The document an extra-source announcement serializes to.
pub open spec fn extra_source_submit_jv(e: ExtraSourceSubmit) -> Jv {
    Jv::Obj(
        seq![
            ("description"@, Jv::Str(e.description@)),
            ("filename"@, Jv::Str(e.filename@)),
            ("filelen"@, Jv::Str(e.filelen@)),
        ],
    )
}

impl ExtraSourceSubmit {
    /// A fresh extra-source announcement.
    pub fn new(description: &str, filename: &str, filelen: &str) -> (r: ExtraSourceSubmit)
        ensures
            r.description@ == description@,
            r.filename@ == filename@,
            r.filelen@ == filelen@,
    {
        ExtraSourceSubmit {
            description: String::from_str(description),
            filename: String::from_str(filename),
            filelen: String::from_str(filelen),
        }
    }

    /// This payload as a document.
    pub fn to_value(self) -> (r: JsonValue)
        ensures
            r.deep() == extra_source_submit_jv(self),
    {
        let ghost me = self;
        let mut fields: Vec<(String, JsonValue)> = Vec::new();
        fields.push((String::from_str("description"), JsonValue::Str(self.description)));
        fields.push((String::from_str("filename"), JsonValue::Str(self.filename)));
        fields.push((String::from_str("filelen"), JsonValue::Str(self.filelen)));
        let obj = JsonValue::Obj(fields);
        proof {
            assert(obj.deep() is Obj);
            assert(obj.deep()->Obj_0.len() == 3);
            assert(obj.deep()->Obj_0[0] == (fields@[0].0@, fields@[0].1.deep()));
            assert(obj.deep()->Obj_0[1] == (fields@[1].0@, fields@[1].1.deep()));
            assert(obj.deep()->Obj_0[2] == (fields@[2].0@, fields@[2].1.deep()));
            assert(obj.deep()->Obj_0 =~= extra_source_submit_jv(me)->Obj_0);
            assert(obj.deep() == extra_source_submit_jv(me));
        }
        obj
    }
}

/// One extra source as the server lists it.
pub struct ExtraSource {
    pub id: String,
    pub filename: String,
    pub description: String,
}

/// What an extra-source entry document means.
pub open spec fn extra_source_of(v: Jv) -> Option<(Seq<char>, Seq<char>, Seq<char>)> {
    match v {
        Jv::Obj(ms) => match str_field(ms, "id"@) {
            Some(i) => match str_field(ms, "filename"@) {
                Some(f) => match str_field(ms, "description"@) {
                    Some(d) => Some((i, f, d)),
                    None => None,
                },
                None => None,
            },
            None => None,
        },
        _ => None,
    }
}

impl ExtraSource {
    /// Reads one extra-source entry.
    pub fn from_json(v: &JsonValue) -> (r: Option<ExtraSource>)
        ensures
            match extra_source_of(v.deep()) {
                Some((i, f, d)) => r matches Some(x) && x.id@ == i && x.filename@ == f
                    && x.description@ == d,
                None => r is None,
            },
    {
        let i = match get_str_field(v, "id") {
            Some(s) => s.clone(),
            None => {
                return None;
            },
        };
        let f = match get_str_field(v, "filename") {
            Some(s) => s.clone(),
            None => {
                return None;
            },
        };
        let d = match get_str_field(v, "description") {
            Some(s) => s.clone(),
            None => {
                return None;
            },
        };
        Some(ExtraSource { id: i, filename: f, description: d })
    }
}

/// One extra source as received in a listing; same shape as
/// [`ExtraSource`].
pub struct ExtraSourceReceive {
    pub id: String,
    pub filename: String,
    pub description: String,
}

impl ExtraSourceReceive {
    /// Reads one extra-source listing entry.
    pub fn from_json(v: &JsonValue) -> (r: Option<ExtraSourceReceive>)
        ensures
            match extra_source_of(v.deep()) {
                Some((i, f, d)) => r matches Some(x) && x.id@ == i && x.filename@ == f
                    && x.description@ == d,
                None => r is None,
            },
    {
        match ExtraSource::from_json(v) {
            Some(x) => Some(
                ExtraSourceReceive { id: x.id, filename: x.filename, description: x.description },
            ),
            None => None,
        }
    }
}

/// The connected clients, by role.
pub struct Clients {
    pub controllers: Vec<String>,
    pub buildbots: Vec<String>,
}

/// What a connected-clients document means.
pub open spec fn clients_of(v: Jv) -> Option<(Seq<Seq<char>>, Seq<Seq<char>>)> {
    match v {
        Jv::Obj(ms) => match obj_get(ms, "controllers"@) {
            Some(c) => match str_list_of(c) {
                Some(cs) => match obj_get(ms, "buildbots"@) {
                    Some(b) => match str_list_of(b) {
                        Some(bs) => Some((cs, bs)),
                        None => None,
                    },
                    None => None,
                },
                None => None,
            },
            None => None,
        },
        _ => None,
    }
}

impl Clients {
    /// Reads a connected-clients listing.
    pub fn from_json(v: &JsonValue) -> (r: Option<Clients>)
        ensures
            match clients_of(v.deep()) {
                Some((cs, bs)) => r matches Some(x) && x.controllers.deep_view() == cs
                    && x.buildbots.deep_view() == bs,
                None => r is None,
            },
    {
        let controllers = match v.get("controllers") {
            Some(f) => match string_list(f) {
                Some(l) => l,
                None => {
                    return None;
                },
            },
            None => {
                return None;
            },
        };
        let buildbots = match v.get("buildbots") {
            Some(f) => match string_list(f) {
                Some(l) => l,
                None => {
                    return None;
                },
            },
            None => {
                return None;
            },
        };
        proof {
            lemma_deep_view_pointwise(controllers);
            lemma_deep_view_pointwise(buildbots);
        }
        Some(Clients { controllers, buildbots })
    }
}

/// Which packages depend on a given one, per build kind.
pub struct Dependers {
    pub releasebuild: Vec<String>,
    pub crossbuild: Vec<String>,
}

/// What a dependers document means.
pub open spec fn dependers_of(v: Jv) -> Option<(Seq<Seq<char>>, Seq<Seq<char>>)> {
    match v {
        Jv::Obj(ms) => match obj_get(ms, "releasebuild"@) {
            Some(c) => match str_list_of(c) {
                Some(cs) => match obj_get(ms, "crossbuild"@) {
                    Some(b) => match str_list_of(b) {
                        Some(bs) => Some((cs, bs)),
                        None => None,
                    },
                    None => None,
                },
                None => None,
            },
            None => None,
        },
        _ => None,
    }
}

impl Dependers {
    /// Reads a dependers listing.
    pub fn from_json(v: &JsonValue) -> (r: Option<Dependers>)
        ensures
            match dependers_of(v.deep()) {
                Some((cs, bs)) => r matches Some(x) && x.releasebuild.deep_view() == cs
                    && x.crossbuild.deep_view() == bs,
                None => r is None,
            },
    {
        let releasebuild = match v.get("releasebuild") {
            Some(f) => match string_list(f) {
                Some(l) => l,
                None => {
                    return None;
                },
            },
            None => {
                return None;
            },
        };
        let crossbuild = match v.get("crossbuild") {
            Some(f) => match string_list(f) {
                Some(l) => l,
                None => {
                    return None;
                },
            },
            None => {
                return None;
            },
        };
        proof {
            lemma_deep_view_pointwise(releasebuild);
            lemma_deep_view_pointwise(crossbuild);
        }
        Some(Dependers { releasebuild, crossbuild })
    }
}

pub(crate) proof fn lemma_deep_view_pointwise(v: Vec<String>)
    ensures
        v.deep_view().len() == v@.len(),
        forall|i: int| 0 <= i < v@.len() ==> (#[trigger] v@[i])@ == v.deep_view()[i],
{
}

/// One job as the server reports it.
pub struct Job {
    pub job_id: String,
    pub job_status: String,
    pub job_name: String,
    pub requesting_client: String,
}

/// What a job document means.
pub open spec fn job_of(v: Jv) -> Option<(Seq<char>, Seq<char>, Seq<char>, Seq<char>)> {
    match v {
        Jv::Obj(ms) => match str_field(ms, "job_id"@) {
            Some(i) => match str_field(ms, "job_status"@) {
                Some(s) => match str_field(ms, "job_name"@) {
                    Some(n) => match str_field(ms, "requesting_client"@) {
                        Some(c) => Some((i, s, n, c)),
                        None => None,
                    },
                    None => None,
                },
                None => None,
            },
            None => None,
        },
        _ => None,
    }
}

impl Job {
    /// Reads one job entry.
    pub fn from_json(v: &JsonValue) -> (r: Option<Job>)
        ensures
            match job_of(v.deep()) {
                Some((i, s, n, c)) => r matches Some(x) && x.job_id@ == i && x.job_status@ == s
                    && x.job_name@ == n && x.requesting_client@ == c,
                None => r is None,
            },
    {
        let i = match get_str_field(v, "job_id") {
            Some(s) => s.clone(),
            None => {
                return None;
            },
        };
        let s = match get_str_field(v, "job_status") {
            Some(s) => s.clone(),
            None => {
                return None;
            },
        };
        let n = match get_str_field(v, "job_name") {
            Some(s) => s.clone(),
            None => {
                return None;
            },
        };
        let c = match get_str_field(v, "requesting_client") {
            Some(s) => s.clone(),
            None => {
                return None;
            },
        };
        Some(Job { job_id: i, job_status: s, job_name: n, requesting_client: c })
    }

    /// The job's identifier.
    pub fn get_id(&self) -> (r: String)
        ensures
            r@ == self.job_id@,
    {
        self.job_id.clone()
    }
}

/// What a job-array document means.
pub open spec fn job_list_of(v: Jv) -> Option<Seq<(Seq<char>, Seq<char>, Seq<char>, Seq<char>)>> {
    match v {
        Jv::Arr(es) => {
            if forall|i: int| 0 <= i < es.len() ==> job_of(#[trigger] es[i]) is Some {
                Some(Seq::new(es.len(), |i: int| job_of(es[i])->Some_0))
            } else {
                None
            }
        },
        _ => None,
    }
}

/// The read jobs carry exactly the reported fields, in order.
pub open spec fn jobs_match(
    out: Seq<Job>,
    js: Seq<(Seq<char>, Seq<char>, Seq<char>, Seq<char>)>,
) -> bool {
    out.len() == js.len() && forall|i: int|
        0 <= i < js.len() ==> ((#[trigger] out[i]).job_id@, out[i].job_status@, out[i].job_name@,
        out[i].requesting_client@) == js[i]
}

/// Reads an array of jobs.
pub fn job_list(v: &JsonValue) -> (r: Option<Vec<Job>>)
    ensures
        match job_list_of(v.deep()) {
            Some(js) => r matches Some(out) && jobs_match(out@, js),
            None => r is None,
        },
{
    match v {
        JsonValue::Arr(elems) => {
            let ghost es = v.deep()->Arr_0;
            proof {
                assert(v.deep() is Arr);
                assert(es.len() == elems@.len());
            }
            let mut out: Vec<Job> = Vec::new();
            let mut i: usize = 0;
            while i < elems.len()
                invariant
                    i <= elems@.len(),
                    v.deep() is Arr,
                    es == v.deep()->Arr_0,
                    es.len() == elems@.len(),
                    forall|t: int| 0 <= t < es.len() ==> #[trigger] es[t] == elems@[t].deep(),
                    out@.len() == i,
                    forall|t: int| 0 <= t < i ==> job_of(#[trigger] es[t]) is Some && (
                    out@[t].job_id@, out@[t].job_status@, out@[t].job_name@,
                    out@[t].requesting_client@) == job_of(es[t])->Some_0,
                decreases elems@.len() - i,
            {
                match Job::from_json(&elems[i]) {
                    Some(j) => {
                        out.push(j);
                    },
                    None => {
                        proof {
                            assert(job_of(es[i as int]) is None);
                        }
                        return None;
                    },
                }
                i = i + 1;
            }
            Some(out)
        },
        _ => None,
    }
}

/// The queued, running and completed jobs, as one status report.
pub struct JobsStatus {
    pub queuedjobs: Vec<Job>,
    pub runningjobs: Vec<Job>,
    pub completedjobs: Vec<Job>,
}

/// What a job-status document means.
pub open spec fn jobs_status_of(v: Jv) -> Option<
    (
        Seq<(Seq<char>, Seq<char>, Seq<char>, Seq<char>)>,
        Seq<(Seq<char>, Seq<char>, Seq<char>, Seq<char>)>,
        Seq<(Seq<char>, Seq<char>, Seq<char>, Seq<char>)>,
    ),
> {
    match v {
        Jv::Obj(ms) => match obj_get(ms, "queuedjobs"@) {
            Some(q) => match job_list_of(q) {
                Some(qs) => match obj_get(ms, "runningjobs"@) {
                    Some(rn) => match job_list_of(rn) {
                        Some(rs) => match obj_get(ms, "completedjobs"@) {
                            Some(c) => match job_list_of(c) {
                                Some(cs) => Some((qs, rs, cs)),
                                None => None,
                            },
                            None => None,
                        },
                        None => None,
                    },
                    None => None,
                },
                None => None,
            },
            None => None,
        },
        _ => None,
    }
}

impl JobsStatus {
    /// Reads a job-status report.
    pub fn from_json(v: &JsonValue) -> (r: Option<JobsStatus>)
        ensures
            match jobs_status_of(v.deep()) {
                Some((qs, rs, cs)) => r matches Some(x) && jobs_match(x.queuedjobs@, qs)
                    && jobs_match(x.runningjobs@, rs) && jobs_match(x.completedjobs@, cs),
                None => r is None,
            },
    {
        let queuedjobs = match v.get("queuedjobs") {
            Some(f) => match job_list(f) {
                Some(l) => l,
                None => {
                    return None;
                },
            },
            None => {
                return None;
            },
        };
        let runningjobs = match v.get("runningjobs") {
            Some(f) => match job_list(f) {
                Some(l) => l,
                None => {
                    return None;
                },
            },
            None => {
                return None;
            },
        };
        let completedjobs = match v.get("completedjobs") {
            Some(f) => match job_list(f) {
                Some(l) => l,
                None => {
                    return None;
                },
            },
            None => {
                return None;
            },
        };
        Some(JobsStatus { queuedjobs, runningjobs, completedjobs })
    }
}

/// The string under `key`, when the object has one.
pub open spec fn str_field(ms: Seq<(Seq<char>, Jv)>, key: Seq<char>) -> Option<Seq<char>> {
    match obj_get(ms, key) {
        Some(Jv::Str(s)) => Some(s),
        _ => None,
    }
}

/// Reads a string field out of an object document.
pub fn get_str_field<'a>(v: &'a JsonValue, key: &str) -> (r: Option<&'a String>)
    ensures
        match v.deep() {
            Jv::Obj(ms) => match str_field(ms, key@) {
                Some(s) => r matches Some(t) && t@ == s,
                None => r is None,
            },
            _ => r is None,
        },
{
    match v.get(key) {
        Some(f) => f.as_str(),
        None => None,
    }
}

} // verus!
