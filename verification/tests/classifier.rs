use alma_client::classify::{body_format, classify_json_errors, classify_xml_errors,
    encode_error_body, BodyFormat};
use alma_client::document::Value;
use alma_client::errors::{is_failure_status, AlmaError, AlmaErrors, ClientError};

fn error_entry(code: &str, message: &str, tracking: &str) -> Value {
    Value::Obj(vec![
        ("errorCode".to_string(), Value::Str(code.to_string())),
        ("errorMessage".to_string(), Value::Str(message.to_string())),
        ("trackingId".to_string(), Value::Str(tracking.to_string())),
    ])
}

#[test]
fn xml_and_json_error_bodies_classify_alike() {
    let triples = vec![
        ("401664".to_string(), "User with identifier X was not found.".to_string(),
            "E01-0101".to_string()),
        ("402880".to_string(), "Invalid user record.".to_string(), "E01-0202".to_string()),
    ];
    let xml_body = encode_error_body(&triples);
    let from_xml = classify_xml_errors(400, xml_body.as_str()).unwrap();

    let doc = Value::Obj(vec![(
        "errorList".to_string(),
        Value::Obj(vec![
            ("error0".to_string(), error_entry("401664",
                "User with identifier X was not found.", "E01-0101")),
            ("error1".to_string(), error_entry("402880", "Invalid user record.", "E01-0202")),
        ]),
    )]);
    let from_json = classify_json_errors(400, &doc).unwrap();

    assert_eq!(from_xml.len(), 2);
    assert_eq!(from_json.len(), 2);
    for (a, b) in from_xml.iter().zip(from_json.iter()) {
        assert_eq!(a.status_code, 400);
        assert_eq!(b.status_code, 400);
        assert_eq!(a.error_code, b.error_code);
        assert_eq!(a.error_message, b.error_message);
        assert_eq!(a.tracking_id, b.tracking_id);
    }
    assert_eq!(from_xml[0].error_code, "401664");
    assert_eq!(from_xml[1].error_message, "Invalid user record.");
    assert_eq!(from_xml[1].tracking_id, "E01-0202");
}

#[test]
fn xml_error_body_tolerates_wrapper_elements() {
    let body = "<web_service_result><errorList><error><errorCode>100</errorCode><errorMessage>m</errorMessage><trackingId>t</trackingId></error></errorList></web_service_result>";
    let errs = classify_xml_errors(500, body).unwrap();
    assert_eq!(errs.len(), 1);
    assert_eq!(errs[0].status_code, 500);
    assert_eq!(errs[0].error_code, "100");
}

#[test]
fn xml_error_body_without_groups_fails_classification() {
    let body = "<web_service_result><errorList></errorList></web_service_result>";
    assert!(classify_xml_errors(500, body).is_err());
}

#[test]
fn json_error_body_without_error_list_fails_classification() {
    let doc = Value::Obj(vec![("message".to_string(), Value::Str("oops".to_string()))]);
    let err = classify_json_errors(418, &doc).unwrap_err();
    assert!(matches!(err, ClientError::Protocol { status_code: 418, .. }));
}

#[test]
fn missing_error_fields_report_null() {
    let doc = Value::Obj(vec![(
        "errorList".to_string(),
        Value::Obj(vec![(
            "e".to_string(),
            Value::Obj(vec![("errorCode".to_string(), Value::Str("7".to_string()))]),
        )]),
    )]);
    let errs = classify_json_errors(404, &doc).unwrap();
    assert_eq!(errs[0].error_code, "7");
    assert_eq!(errs[0].error_message, "null");
    assert_eq!(errs[0].tracking_id, "null");
}

#[test]
fn xml_error_body_with_prolog_and_entities() {
    let body = "<?xml version=\"1.0\" encoding=\"UTF-8\"?>\n<web_service_result><errorList><error><errorCode>401664</errorCode><errorMessage>A &lt;user&gt; &amp; a &quot;desk&quot;</errorMessage><trackingId>T</trackingId></error></errorList></web_service_result>";
    let errs = classify_xml_errors(400, body).unwrap();
    assert_eq!(errs.len(), 1);
    assert_eq!(errs[0].error_message, "A <user> & a \"desk\"");
}

#[test]
fn content_type_parameter_is_ignored() {
    assert!(matches!(body_format("application/xml;charset=UTF-8"), BodyFormat::Xml));
    assert!(matches!(body_format("application/json"), BodyFormat::Json));
    assert!(matches!(body_format("text/html"), BodyFormat::Other));
    assert!(matches!(body_format("application/xhtml+xml"), BodyFormat::Other));
}

#[test]
fn failure_statuses_are_the_4xx_and_5xx_range() {
    assert!(!is_failure_status(200));
    assert!(!is_failure_status(399));
    assert!(is_failure_status(400));
    assert!(is_failure_status(404));
    assert!(is_failure_status(500));
    assert!(is_failure_status(599));
    assert!(!is_failure_status(600));
}

#[test]
fn error_messages_render_exactly() {
    let e = AlmaError {
        status_code: 400,
        error_code: "401664".to_string(),
        error_message: "no such user".to_string(),
        tracking_id: "T1".to_string(),
    };
    assert_eq!(
        e.to_message(),
        "Alma API error:\n Status: 400\n Error Code: 401664\n Error Message: no such user"
    );
    let batch = AlmaErrors(vec![e]);
    assert_eq!(
        batch.to_message(),
        "Alma API error:\n Status: 400\n Error Code: 401664\n Error Message: no such user\n"
    );
}

#[test]
fn describe_names_each_failure_kind() {
    let t = ClientError::Transport { detail: "connection refused".to_string() };
    assert_eq!(t.describe(), "transport failure: connection refused");
    let p = ClientError::Protocol {
        status_code: 503,
        content_type: Some("text/html".to_string()),
    };
    assert_eq!(p.describe(), "unclassifiable failure response: status 503, content type text/html");
    let absent = ClientError::unclassifiable(500, None);
    assert_eq!(absent.describe(), "unclassifiable failure response: status 500, without a content type");
    let j = ClientError::Join { detail: "panicked".to_string() };
    assert_eq!(j.describe(), "page task failure: panicked");
}
