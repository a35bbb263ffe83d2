use rranch::envelope::{
    AuthRequest, AuthResponse, Build, Clients, Dependers, EnvelopeError, ExtraSourceSubmit, Job,
    JobRequest, JobsStatus, Request, Response, Solution, StatusCode,
};
use rranch::json::JsonValue;

#[test]
fn request_serializes_command_and_payload() {
    let req = Request::new("CHECKOUT", Some(JsonValue::Str("thunar".to_string())));
    assert_eq!(req.to_text(), "{\"command\":\"CHECKOUT\",\"payload\":\"thunar\"}");
}

#[test]
fn request_without_payload_sends_null() {
    let req = Request::new("GETJOBSTATUS", None);
    assert_eq!(req.to_text(), "{\"command\":\"GETJOBSTATUS\",\"payload\":null}");
}

#[test]
fn numeric_and_text_status_codes_decode_alike() {
    let a = Response::parse("{\"statuscode\":200,\"payload\":null}").unwrap();
    let b = Response::parse("{\"statuscode\":\"200\",\"payload\":null}").unwrap();
    assert_eq!(a.statuscode, StatusCode::Success);
    assert_eq!(b.statuscode, StatusCode::Success);
    let a = Response::parse("{\"statuscode\":400,\"payload\":null}").unwrap();
    let b = Response::parse("{\"statuscode\":\"400\",\"payload\":null}").unwrap();
    assert_eq!(a.statuscode, StatusCode::RequestFailure);
    assert_eq!(b.statuscode, StatusCode::RequestFailure);
    let a = Response::parse("{\"statuscode\":500,\"payload\":null}").unwrap();
    let b = Response::parse("{\"statuscode\":\"500\",\"payload\":null}").unwrap();
    assert_eq!(a.statuscode, StatusCode::InternalServerError);
    assert_eq!(b.statuscode, StatusCode::InternalServerError);
}

fn expect_err(text: &str) -> EnvelopeError {
    match Response::parse(text) {
        Ok(_) => panic!("expected the response to be rejected"),
        Err(e) => e,
    }
}

#[test]
fn unknown_status_codes_fail_in_both_forms() {
    assert_eq!(expect_err("{\"statuscode\":999,\"payload\":null}"), EnvelopeError::NotAResponse);
    assert_eq!(
        expect_err("{\"statuscode\":\"999\",\"payload\":null}"),
        EnvelopeError::NotAResponse
    );
    assert_eq!(expect_err("{\"statuscode\":2.0,\"payload\":null}"), EnvelopeError::NotAResponse);
}

#[test]
fn responses_need_a_payload_and_valid_json() {
    assert_eq!(expect_err("{\"statuscode\":200}"), EnvelopeError::NotAResponse);
    assert_eq!(expect_err("not json"), EnvelopeError::NotJson);
}

#[test]
fn a_reported_failure_leaves_the_connection_usable() {
    // first command: the server reports a failure
    let resp = Response::parse("{\"statuscode\":400,\"payload\":\"INV_PKG_NAME\"}").unwrap();
    match resp.into_result() {
        Ok(_) => panic!("a failure code must not classify as success"),
        Err((code, payload)) => {
            assert_eq!(code, StatusCode::RequestFailure);
            assert_eq!(payload.to_text(), "\"INV_PKG_NAME\"");
        }
    }
    // an unrelated later command on the same connection still succeeds
    let resp = Response::parse("{\"statuscode\":200,\"payload\":[\"thunar\"]}").unwrap();
    match resp.into_result() {
        Ok(payload) => assert_eq!(payload.to_text(), "[\"thunar\"]"),
        Err(_) => panic!("a success code must classify as success"),
    }
}

#[test]
fn auth_request_serializes_all_fields_in_order() {
    let a = AuthRequest::new("box", "CONTROLLER", "secret", 2);
    let text = Request::new("AUTH", Some(a.to_value())).to_text();
    assert_eq!(
        text,
        "{\"command\":\"AUTH\",\"payload\":{\"machine_identifier\":\"box\",\"machine_type\":\"CONTROLLER\",\"machine_authkey\":\"secret\",\"machine_version\":2}}"
    );
}

#[test]
fn auth_response_reads_its_two_fields() {
    let v = JsonValue::parse("{\"auth_status\":\"ok\",\"logon_message\":\"hi\",\"extra\":1}")
        .unwrap();
    let a = AuthResponse::from_json(&v).unwrap();
    assert_eq!(a.auth_status, "ok");
    assert_eq!(a.logon_message, "hi");
    let v = JsonValue::parse("{\"auth_status\":\"ok\"}").unwrap();
    assert!(AuthResponse::from_json(&v).is_none());
}

#[test]
fn build_request_picks_the_build_type() {
    assert_eq!(
        Build::new("gtk3", true).to_value().to_text(),
        "{\"pkgname\":\"gtk3\",\"buildtype\":\"RELEASE\"}"
    );
    assert_eq!(
        Build::new("gtk3", false).to_value().to_text(),
        "{\"pkgname\":\"gtk3\",\"buildtype\":\"CROSS\"}"
    );
}

#[test]
fn solution_serializes_its_groups() {
    let sol = Solution::new(
        vec![vec!["a".to_string(), "b".to_string()], vec!["c".to_string()]],
        false,
    );
    assert_eq!(
        sol.to_value().to_text(),
        "{\"solution\":[[\"a\",\"b\"],[\"c\"]],\"buildtype\":\"CROSS\"}"
    );
}

#[test]
fn job_request_carries_id_and_offset() {
    let jr = JobRequest::new("j-1", 42);
    assert_eq!(jr.to_value().to_text(), "{\"jobid\":\"j-1\",\"offset\":42}");
}

#[test]
fn extra_source_submit_serializes_its_fields() {
    let es = ExtraSourceSubmit::new("a tarball", "x.tar", "123");
    assert_eq!(
        es.to_value().to_text(),
        "{\"description\":\"a tarball\",\"filename\":\"x.tar\",\"filelen\":\"123\"}"
    );
}

#[test]
fn clients_and_dependers_read_their_lists() {
    let v = JsonValue::parse("{\"controllers\":[\"a\"],\"buildbots\":[\"b\",\"c\"]}").unwrap();
    let c = Clients::from_json(&v).unwrap();
    assert_eq!(c.controllers, vec!["a".to_string()]);
    assert_eq!(c.buildbots, vec!["b".to_string(), "c".to_string()]);
    let v = JsonValue::parse("{\"releasebuild\":[],\"crossbuild\":[\"x\"]}").unwrap();
    let d = Dependers::from_json(&v).unwrap();
    assert!(d.releasebuild.is_empty());
    assert_eq!(d.crossbuild, vec!["x".to_string()]);
    let v = JsonValue::parse("{\"controllers\":[1],\"buildbots\":[]}").unwrap();
    assert!(Clients::from_json(&v).is_none());
}

#[test]
fn job_status_reads_all_three_tables() {
    let text = "{\"queuedjobs\":[],\"runningjobs\":[{\"job_id\":\"1\",\"job_status\":\"RUNNING\",\"job_name\":\"gtk3\",\"requesting_client\":\"box\"}],\"completedjobs\":[]}";
    let v = JsonValue::parse(text).unwrap();
    let js = JobsStatus::from_json(&v).unwrap();
    assert!(js.queuedjobs.is_empty());
    assert!(js.completedjobs.is_empty());
    assert_eq!(js.runningjobs.len(), 1);
    assert_eq!(js.runningjobs[0].get_id(), "1");
    assert_eq!(js.runningjobs[0].job_status, "RUNNING");
    let v = JsonValue::parse("{\"queuedjobs\":[{}],\"runningjobs\":[],\"completedjobs\":[]}")
        .unwrap();
    assert!(JobsStatus::from_json(&v).is_none());
    let v = JsonValue::parse("{\"job_id\":\"1\",\"job_status\":\"s\",\"job_name\":\"n\",\"requesting_client\":\"c\"}").unwrap();
    let j = Job::from_json(&v).unwrap();
    assert_eq!(j.job_name, "n");
    assert_eq!(j.requesting_client, "c");
}

#[test]
fn responses_with_spaced_json_decode_the_same() {
    let resp = Response::parse("{ \"statuscode\" : 200 , \"payload\" : [ ] }").unwrap();
    assert_eq!(resp.statuscode, StatusCode::Success);
    assert_eq!(resp.payload.to_text(), "[]");
}

#[test]
fn the_first_statuscode_field_decides() {
    let resp = Response::parse("{\"statuscode\":200,\"payload\":1,\"statuscode\":400}").unwrap();
    assert_eq!(resp.statuscode, StatusCode::Success);
}

#[test]
fn solution_files_split_into_trimmed_groups() {
    let text = "a; b ;c\n\nd\r\n e;;f ";
    let groups = rranch::envelope::solution_groups(text);
    assert_eq!(
        groups,
        vec![
            vec!["a".to_string(), "b".to_string(), "c".to_string()],
            vec!["".to_string()],
            vec!["d".to_string()],
            vec!["e".to_string(), "".to_string(), "f".to_string()],
        ]
    );
    let sol = Solution::new(rranch::envelope::solution_groups("x;y\nz"), true);
    assert_eq!(
        sol.to_value().to_text(),
        "{\"solution\":[[\"x\",\"y\"],[\"z\"]],\"buildtype\":\"RELEASE\"}"
    );
}
