use xml_checksum_service::file_handler::ScannedFile;
use xml_checksum_service::hash_calculator::HashCalculator;
use xml_checksum_service::processing_result::ProcessingResult;
use xml_checksum_service::server::{
    encode_response, render_response, Connection, ConnectionState, Server,
};

fn scanned(name: &str, content: &str) -> ScannedFile {
    ScannedFile {
        name: name.to_string(),
        is_file: true,
        hash: HashCalculator::new().calculate_hash(content.as_bytes()),
        content: Some(content.to_string()),
    }
}

fn invoice(total_amount: &str) -> String {
    format!("<invoice><totalAmount>{}</totalAmount></invoice>", total_amount)
}

fn names(list: &[&str]) -> Vec<String> {
    list.iter().map(|name| name.to_string()).collect()
}

#[test]
fn test_server_connection() {
    let mut server = Server::new("127.0.0.1", 12345, "test_xml_files_server".to_string());
    assert_eq!(format!("{}:{}", server.host(), server.port()), "127.0.0.1:12345");

    let connection = Connection::accepted();
    let connection = connection.lock(&mut server);
    let result = connection.current_state();
    assert!(result == ConnectionState::Locked);
    assert_eq!(
        connection.file_handler().map(|handler| handler.directory()),
        Some("test_xml_files_server")
    );
}

#[test]
fn delivered_exchange_sends_the_result_and_removes_the_file() {
    let mut server = Server::new("127.0.0.1", 4000, "watched".to_string());
    let files = vec![scanned("invoice.xml", &invoice("495.00"))];

    let connection = Connection::accepted().lock(&mut server).process(&files);
    assert_eq!(connection.current_state(), ConnectionState::Processed);
    let (connection, response) = connection.respond();
    assert_eq!(connection.current_state(), ConnectionState::Delivering);
    let response = response.unwrap();
    let d = "c8466332d14486502c42b41a86d625aa08e30ba82cf6ac60fe6a3eaf978068d9";
    assert_eq!(
        String::from_utf8(response.bytes).unwrap(),
        format!("{{\n  \"invoice.xml\": \"{}|495.00\"\n}}", d)
    );
    assert!(!response.lossy);

    let present = names(&["invoice.xml", "other.txt"]);
    let (connection, removed) = connection.finish_delivery(true, &present);
    assert_eq!(connection.current_state(), ConnectionState::Deleting);
    assert_eq!(removed, names(&["invoice.xml"]));

    let connection = connection.close(&mut server);
    assert_eq!(connection.current_state(), ConnectionState::Closed);
    assert!(server.guard_is_free());
}

#[test]
fn two_files_are_both_delivered_and_removed() {
    let mut server = Server::new("127.0.0.1", 4000, "watched".to_string());
    let files = vec![
        scanned("invoice1.xml", &invoice("495.00")),
        scanned("invoice2.xml", &invoice("1234.56")),
    ];
    let connection = Connection::accepted().lock(&mut server).process(&files);
    let result = connection.result().unwrap();
    assert_eq!(result.len(), 2);
    assert!(result.get("invoice1.xml").unwrap().ends_with("|495.00"));
    assert!(result.get("invoice2.xml").unwrap().ends_with("|1234.56"));
    let (connection, response) = connection.respond();
    assert!(response.is_some());
    let present = names(&["invoice2.xml", "invoice1.xml"]);
    let (_, removed) = connection.finish_delivery(true, &present);
    assert_eq!(removed, names(&["invoice2.xml", "invoice1.xml"]));
}

#[test]
fn file_with_invalid_tag_stays_on_disk() {
    let mut server = Server::new("127.0.0.1", 4000, "watched".to_string());
    let files = vec![scanned("broken.xml", "<invoice><invalidTag>495.00</invalidTag></invoice>")];
    let connection = Connection::accepted().lock(&mut server).process(&files);
    let (connection, response) = connection.respond();
    assert_eq!(String::from_utf8(response.unwrap().bytes).unwrap(), "{}");
    let (_, removed) = connection.finish_delivery(true, &names(&["broken.xml"]));
    assert!(removed.is_empty());
}

#[test]
fn failed_delivery_removes_nothing() {
    let mut server = Server::new("127.0.0.1", 4000, "watched".to_string());
    let files = vec![scanned("invoice.xml", &invoice("495.00"))];
    let connection = Connection::accepted().lock(&mut server).process(&files);
    let (connection, response) = connection.respond();
    assert!(response.is_some());

    let (connection, removed) = connection.finish_delivery(false, &names(&["invoice.xml"]));
    assert_eq!(connection.current_state(), ConnectionState::Aborted);
    assert!(removed.is_empty());

    let connection = connection.close(&mut server);
    assert_eq!(connection.current_state(), ConnectionState::Closed);
    assert!(server.guard_is_free());

    let next = Connection::accepted().lock(&mut server).process(&files);
    assert!(next.result().unwrap().contains_key("invoice.xml"));
}

#[test]
fn second_connection_waits_until_the_first_has_closed() {
    let mut server = Server::new("127.0.0.1", 4000, "watched".to_string());
    assert!(server.guard_is_free());

    let first = Connection::accepted().lock(&mut server);
    assert_eq!(first.current_state(), ConnectionState::Locked);
    assert!(!server.guard_is_free());

    let second = Connection::accepted().lock(&mut server);
    assert_eq!(second.current_state(), ConnectionState::Accepted);
    let second = second.process(&Vec::new());
    assert_eq!(second.current_state(), ConnectionState::Accepted);
    assert!(second.file_handler().is_none());

    let first = first.process(&Vec::new());
    let (first, _) = first.respond();
    let second = second.lock(&mut server);
    assert_eq!(second.current_state(), ConnectionState::Accepted);
    let (first, _) = first.finish_delivery(true, &[]);
    let second = second.lock(&mut server);
    assert_eq!(second.current_state(), ConnectionState::Accepted);
    let first = first.close(&mut server);
    assert_eq!(first.current_state(), ConnectionState::Closed);

    let second = second.lock(&mut server);
    assert_eq!(second.current_state(), ConnectionState::Locked);
    assert!(!server.guard_is_free());
}

#[test]
fn steps_out_of_order_change_nothing() {
    let mut server = Server::new("127.0.0.1", 4000, "watched".to_string());
    let connection = Connection::accepted();
    let (connection, response) = connection.respond();
    assert!(response.is_none());
    assert_eq!(connection.current_state(), ConnectionState::Accepted);
    let (connection, removed) = connection.finish_delivery(true, &names(&["a.xml"]));
    assert!(removed.is_empty());
    assert_eq!(connection.current_state(), ConnectionState::Accepted);
    let connection = connection.close(&mut server);
    assert_eq!(connection.current_state(), ConnectionState::Accepted);
    assert!(server.guard_is_free());

    let connection = connection.lock(&mut server);
    let connection = connection.close(&mut server);
    assert_eq!(connection.current_state(), ConnectionState::Locked);
    let (connection, removed) = connection.finish_delivery(true, &names(&["a.xml"]));
    assert!(removed.is_empty());
    assert_eq!(connection.current_state(), ConnectionState::Locked);
    assert!(connection.result().is_none());
}

#[test]
fn closed_connection_stays_closed() {
    let mut server = Server::new("127.0.0.1", 4000, "watched".to_string());
    let connection = Connection::accepted().lock(&mut server).process(&Vec::new());
    let (connection, _) = connection.respond();
    let (connection, _) = connection.finish_delivery(true, &[]);
    let connection = connection.close(&mut server);
    let connection = connection.lock(&mut server);
    assert_eq!(connection.current_state(), ConnectionState::Closed);
    assert!(server.guard_is_free());
}

#[test]
fn cyrillic_names_are_sent_as_windows_1251() {
    let mut result = ProcessingResult::new();
    result.insert("счёт.xml".to_string(), "d|1.00".to_string());
    let response = render_response(&result).unwrap();
    let expected: Vec<u8> = [
        &b"{\n  \""[..],
        &[0xF1, 0xF7, 0xB8, 0xF2][..],
        &b".xml\": \"d|1.00\"\n}"[..],
    ]
    .concat();
    assert_eq!(response.bytes, expected);
    assert!(!response.lossy);
}

#[test]
fn characters_outside_windows_1251_are_replaced_and_flagged() {
    let response = encode_response("a\u{4e2d}b").unwrap();
    assert_eq!(response.bytes, b"a&#20013;b".to_vec());
    assert!(response.lossy);
}

#[test]
fn plain_text_is_encoded_unchanged() {
    let response = encode_response("{}").unwrap();
    assert_eq!(response.bytes, b"{}".to_vec());
    assert!(!response.lossy);
}
