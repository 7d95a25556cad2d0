use staticserve::handler::{
    fallback_response, handle_file, handle_folder, handle_request, is_operator_fault,
    respond_missing, status_of, Body, Probe, ServeError, Status,
};

fn segs(parts: &[&str]) -> Vec<Vec<u8>> {
    parts.iter().map(|p| p.as_bytes().to_vec()).collect()
}

#[test]
fn stream_declares_the_opened_length() {
    let response = handle_file(Some(10));
    assert_eq!(response.status, Status::Okay);
    assert_eq!(response.body, Body::Stream(10));
}

#[test]
fn failed_open_falls_back_to_not_found() {
    let response = handle_file(None);
    assert_eq!(response.status, Status::NotFound);
    assert_eq!(response.body, Body::Empty);
}

#[test]
fn failed_directory_read_is_not_found() {
    let response = handle_folder(&segs(&["sub"]), None);
    assert_eq!(response.status, Status::NotFound);
    assert_eq!(response.body, Body::Empty);
}

#[test]
fn missing_response_identifies_the_request() {
    let response = respond_missing(&b"nope".to_vec());
    assert_eq!(response.status, Status::NotFound);
    assert_eq!(response.body, Body::Bytes(b"File not found: /nope".to_vec()));
}

#[test]
fn missing_response_escapes_the_request() {
    let response = respond_missing(&b"<x>".to_vec());
    assert_eq!(response.body, Body::Bytes(b"File not found: /&lt;x&gt;".to_vec()));
}

#[test]
fn fallback_describes_the_request() {
    let response = fallback_response(&b"POST /x".to_vec());
    assert_eq!(response.status, Status::Okay);
    assert_eq!(response.body, Body::Bytes(b"Not implemented: POST /x".to_vec()));
}

#[test]
fn every_error_class_maps_to_not_found() {
    assert_eq!(status_of(ServeError::OutOfRoot), Status::NotFound);
    assert_eq!(status_of(ServeError::NotFoundOnDisk), Status::NotFound);
    assert_eq!(status_of(ServeError::AccessDenied), Status::NotFound);
    assert_eq!(status_of(ServeError::RaceLost), Status::NotFound);
}

#[test]
fn only_denied_probes_alert_the_operator() {
    assert!(is_operator_fault(ServeError::AccessDenied));
    assert!(!is_operator_fault(ServeError::OutOfRoot));
    assert!(!is_operator_fault(ServeError::NotFoundOnDisk));
    assert!(!is_operator_fault(ServeError::RaceLost));
}

#[test]
fn request_for_file_streams_it() {
    let response = handle_request(&b"a.txt".to_vec(), Probe::IsFile, None, Some(10));
    assert_eq!(response.status, Status::Okay);
    assert_eq!(response.body, Body::Stream(10));
}

#[test]
fn request_for_absent_path_reports_it() {
    let response = handle_request(&b"missing".to_vec(), Probe::Absent, None, None);
    assert_eq!(response.status, Status::NotFound);
    assert_eq!(response.body, Body::Bytes(b"File not found: /missing".to_vec()));
}

#[test]
fn request_above_root_reports_missing_whatever_exists() {
    let response = handle_request(&b"../secret".to_vec(), Probe::IsFile, None, Some(10));
    assert_eq!(response.status, Status::NotFound);
    assert_eq!(response.body, Body::Bytes(b"File not found: /../secret".to_vec()));
}

#[test]
fn request_for_unreadable_directory_is_not_found() {
    let response = handle_request(&b"sub".to_vec(), Probe::IsDir, None, None);
    assert_eq!(response.status, Status::NotFound);
    assert_eq!(response.body, Body::Empty);
}
