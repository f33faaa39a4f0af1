use vhost::sni::{parse_sni, SniError};

fn be16(x: usize) -> [u8; 2] {
    [(x >> 8) as u8, (x & 0xff) as u8]
}

fn extension(kind: u16, body: &[u8]) -> Vec<u8> {
    let mut v = Vec::new();
    v.extend_from_slice(&be16(kind as usize));
    v.extend_from_slice(&be16(body.len()));
    v.extend_from_slice(body);
    v
}

fn server_name_body(host: &[u8]) -> Vec<u8> {
    let mut v = Vec::new();
    v.extend_from_slice(&be16(host.len() + 3));
    v.push(0);
    v.extend_from_slice(&be16(host.len()));
    v.extend_from_slice(host);
    v
}

fn client_hello(session_id: &[u8], suites: &[u8], compression: &[u8], exts: &[Vec<u8>]) -> Vec<u8> {
    let mut v = vec![0x16, 0x03, 0x01, 0x00, 0x00, 0x01, 0x00, 0x00, 0x00, 0x03, 0x03];
    v.extend_from_slice(&[0x5a; 32]);
    assert_eq!(v.len(), 43);
    v.push(session_id.len() as u8);
    v.extend_from_slice(session_id);
    v.extend_from_slice(&be16(suites.len()));
    v.extend_from_slice(suites);
    v.push(compression.len() as u8);
    v.extend_from_slice(compression);
    let block: Vec<u8> = exts.concat();
    v.extend_from_slice(&be16(block.len()));
    v.extend_from_slice(&block);
    v
}

#[test]
fn short_inputs_are_too_short() {
    for n in 0..42 {
        let buf = vec![0xffu8; n];
        assert_eq!(parse_sni(&buf, n), Err(SniError::TooShort));
    }
}

#[test]
fn forty_one_bytes_are_too_short() {
    let buf = [0u8; 1024];
    assert_eq!(parse_sni(&buf, 41), Err(SniError::TooShort));
}

#[test]
fn server_name_test_io() {
    let body = vec![0x00, 0x09, 0x00, 0x00, 0x07, b't', b'e', b's', b't', b'.', b'i', b'o'];
    let hello = client_hello(&[], &[0x13, 0x01], &[0x00], &[extension(0, &body)]);
    assert_eq!(parse_sni(&hello, hello.len()), Ok("test.io".to_string()));
}

#[test]
fn server_name_after_other_extensions() {
    let exts = vec![
        extension(0x000b, &[0x01, 0x00]),
        extension(0x0017, &[]),
        extension(0, &server_name_body(b"www.example.com")),
        extension(0, &server_name_body(b"second.example")),
    ];
    let hello = client_hello(&[7u8; 32], &[0x13, 0x01, 0x13, 0x02], &[0x00], &exts);
    assert_eq!(parse_sni(&hello, hello.len()), Ok("www.example.com".to_string()));
}

#[test]
fn non_ascii_server_name_is_decoded() {
    let host = "bücher.example".as_bytes();
    let hello = client_hello(&[], &[0x00, 0x2f], &[0x00], &[extension(0, &server_name_body(host))]);
    assert_eq!(parse_sni(&hello, hello.len()), Ok("bücher.example".to_string()));
}

#[test]
fn no_server_name_gives_empty_string() {
    let exts = vec![extension(0x000a, &[0x00, 0x02, 0x00, 0x1d]), extension(0x002b, &[0x02, 0x03, 0x04])];
    let hello = client_hello(&[1, 2, 3], &[0x13, 0x01], &[0x00], &exts);
    assert_eq!(parse_sni(&hello, hello.len()), Ok(String::new()));
}

#[test]
fn empty_extension_block_gives_empty_string() {
    let hello = client_hello(&[], &[0x13, 0x01], &[0x00], &[]);
    assert_eq!(parse_sni(&hello, hello.len()), Ok(String::new()));
}

#[test]
fn invalid_utf8_name_is_malformed() {
    let hello = client_hello(&[], &[0x13, 0x01], &[0x00], &[extension(0, &server_name_body(&[0xff, 0xfe]))]);
    assert_eq!(parse_sni(&hello, hello.len()), Err(SniError::MalformedExtension));
}

#[test]
fn truncated_session_id_is_too_short() {
    let hello = client_hello(&[9u8; 32], &[0x13, 0x01], &[0x00], &[]);
    assert_eq!(parse_sni(&hello, 60), Err(SniError::TooShort));
}

#[test]
fn truncated_cipher_suites_are_too_short() {
    let hello = client_hello(&[], &[0x13; 40], &[0x00], &[]);
    assert_eq!(parse_sni(&hello, 70), Err(SniError::TooShort));
}

#[test]
fn truncated_compression_methods_are_too_short() {
    let hello = client_hello(&[], &[0x13, 0x01], &[0x00; 10], &[]);
    assert_eq!(parse_sni(&hello, 52), Err(SniError::TooShort));
}

#[test]
fn missing_extension_length_is_too_short() {
    let hello = client_hello(&[], &[0x13, 0x01], &[0x00], &[]);
    let n = hello.len() - 2;
    assert_eq!(parse_sni(&hello, n), Err(SniError::TooShort));
}

#[test]
fn truncated_extension_is_too_short() {
    let exts = vec![extension(0x000a, &[0u8; 30]), extension(0, &server_name_body(b"a.example"))];
    let hello = client_hello(&[], &[0x13, 0x01], &[0x00], &exts);
    assert_eq!(parse_sni(&hello, hello.len() - 10), Err(SniError::TooShort));
}

#[test]
fn short_server_name_body_is_too_short() {
    let hello = client_hello(&[], &[0x13, 0x01], &[0x00], &[extension(0, &[0x00, 0x01, 0x00])]);
    assert_eq!(parse_sni(&hello, hello.len()), Err(SniError::TooShort));
}

#[test]
fn bytes_past_n_are_not_read() {
    let hello = client_hello(&[], &[0x13, 0x01], &[0x00], &[extension(0, &server_name_body(b"x.example"))]);
    let mut buf = hello.clone();
    buf.extend_from_slice(&[0xff; 16]);
    assert_eq!(parse_sni(&buf, hello.len()), Ok("x.example".to_string()));
    assert_eq!(parse_sni(&buf, hello.len() - 1), Err(SniError::TooShort));
}

#[test]
fn extension_block_ending_at_capacity() {
    let head_len = 43 + 1 + 2 + 2 + 1 + 1 + 2;
    let name_ext = extension(0, &server_name_body(b"edge.example"));
    let pad_body = vec![0u8; 1024 - head_len - name_ext.len() - 4];
    let exts = vec![extension(0x0015, &pad_body), name_ext];
    let hello = client_hello(&[], &[0x13, 0x01], &[0x00], &exts);
    assert_eq!(hello.len(), 1024);
    let mut buf = [0u8; 1024];
    buf.copy_from_slice(&hello);
    assert_eq!(parse_sni(&buf, 1024), Ok("edge.example".to_string()));
}
