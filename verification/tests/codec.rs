use address_store::codec::{Address, Principal, SizeBound, StoreError, MAX_PRINCIPAL_LEN};

fn sample() -> Address {
    Address {
        street: "a".to_string(),
        city: String::new(),
        state: "IL".to_string(),
        zip: 62704,
        created_by: Principal::from_slice(&[1, 2]).unwrap(),
    }
}

fn sample_bytes() -> Vec<u8> {
    let mut bytes: Vec<u8> = Vec::new();
    bytes.extend_from_slice(&[1, 0, 0, 0, 0, 0, 0, 0]);
    bytes.push(b'a');
    bytes.extend_from_slice(&[0, 0, 0, 0, 0, 0, 0, 0]);
    bytes.extend_from_slice(&[2, 0, 0, 0, 0, 0, 0, 0]);
    bytes.extend_from_slice(b"IL");
    bytes.extend_from_slice(&[0xF0, 0xF4, 0, 0, 0, 0, 0, 0]);
    bytes.push(2);
    bytes.extend_from_slice(&[1, 2]);
    bytes
}

#[test]
fn layout_is_exact() {
    assert_eq!(sample().to_bytes(), sample_bytes());
}

#[test]
fn layout_is_deterministic() {
    assert_eq!(sample().to_bytes(), sample().to_bytes());
}

#[test]
fn decoding_reads_the_layout() {
    assert_eq!(Address::from_bytes(&sample_bytes()), Ok(sample()));
}

#[test]
fn decoding_inverts_encoding() {
    let address = Address {
        street: "12 Rue de l'Église".to_string(),
        city: "Zürich".to_string(),
        state: "日本".to_string(),
        zip: u64::MAX,
        created_by: Principal::from_slice(&[7; MAX_PRINCIPAL_LEN]).unwrap(),
    };
    let bytes = address.to_bytes();
    assert_eq!(Address::from_bytes(&bytes), Ok(address));
}

#[test]
fn decoding_an_empty_record() {
    let address = Address {
        street: String::new(),
        city: String::new(),
        state: String::new(),
        zip: 0,
        created_by: Principal::from_slice(&[]).unwrap(),
    };
    let bytes = address.to_bytes();
    assert_eq!(bytes.len(), 8 * 4 + 1);
    assert_eq!(Address::from_bytes(&bytes), Ok(address));
}

#[test]
fn decoding_refuses_every_truncation() {
    let bytes = sample_bytes();
    for cut in 0..bytes.len() {
        assert_eq!(Address::from_bytes(&bytes[..cut]), Err(StoreError::DecodeError));
    }
}

#[test]
fn decoding_refuses_trailing_bytes() {
    let mut bytes = sample_bytes();
    bytes.push(0);
    assert_eq!(Address::from_bytes(&bytes), Err(StoreError::DecodeError));
}

#[test]
fn decoding_refuses_invalid_utf8() {
    let mut bytes = sample_bytes();
    bytes[8] = 0xFF;
    assert_eq!(Address::from_bytes(&bytes), Err(StoreError::DecodeError));
}

#[test]
fn decoding_refuses_a_length_beyond_the_input() {
    let mut bytes = sample_bytes();
    bytes[7] = 0xFF;
    assert_eq!(Address::from_bytes(&bytes), Err(StoreError::DecodeError));
}

#[test]
fn decoding_refuses_a_principal_over_the_limit() {
    let mut bytes = sample_bytes();
    let at = bytes.len() - 3;
    bytes[at] = 30;
    bytes.extend_from_slice(&[0; 28]);
    assert_eq!(Address::from_bytes(&bytes), Err(StoreError::DecodeError));
}

#[test]
fn principal_keeps_to_the_limit() {
    assert_eq!(MAX_PRINCIPAL_LEN, 29);
    let longest = [9u8; 29];
    let made = Principal::from_slice(&longest).unwrap();
    assert_eq!(made.as_slice(), &longest[..]);
    assert_eq!(made.duplicate(), made);
    assert_eq!(Principal::from_slice(&[9u8; 30]), None);
}

#[test]
fn layout_length_is_33_and_the_fields() {
    assert_eq!(sample().to_bytes().len(), 33 + 1 + 0 + 2 + 2);
    let address = Address {
        street: "é".to_string(),
        city: "ab".to_string(),
        state: "日本".to_string(),
        zip: 7,
        created_by: Principal::from_slice(&[1, 2, 3, 4, 5]).unwrap(),
    };
    assert_eq!(address.to_bytes().len(), 33 + 2 + 2 + 6 + 5);
}

#[test]
fn a_record_has_no_size_bound() {
    assert_eq!(Address::size_bound(), SizeBound::Unbounded);
}

#[test]
fn different_records_have_different_layouts() {
    let mut other = sample();
    other.city = "a".to_string();
    other.street = String::new();
    assert_ne!(other.to_bytes(), sample().to_bytes());
    assert_eq!(other.to_bytes().len(), sample().to_bytes().len());
}
