use house_registry::house::House;

fn sample() -> House {
    House {
        id: 42,
        owners_name: "Ngozi Okafor".to_string(),
        realtor: Some("rrkah-fqaaa".to_string()),
        house_type: "bungalow ☀".to_string(),
        location: "Enugu".to_string(),
        created_at: 1_700_000_000_000,
        updated_at: Some(1_700_000_500_000),
        price: 500,
        available_units: 3,
        availability: true,
        buyers: vec!["buyer-one".to_string(), String::new(), "ü".to_string()],
    }
}

fn same(a: &House, b: &House) {
    assert_eq!(a.id, b.id);
    assert_eq!(a.owners_name, b.owners_name);
    assert_eq!(a.realtor, b.realtor);
    assert_eq!(a.house_type, b.house_type);
    assert_eq!(a.location, b.location);
    assert_eq!(a.created_at, b.created_at);
    assert_eq!(a.updated_at, b.updated_at);
    assert_eq!(a.price, b.price);
    assert_eq!(a.available_units, b.available_units);
    assert_eq!(a.availability, b.availability);
    assert_eq!(a.buyers, b.buyers);
}

#[test]
fn codec_round_trip() {
    let h = sample();
    let bytes = h.to_bytes();
    let back = House::from_bytes(&bytes).unwrap();
    same(&h, &back);
    let mut plain = sample();
    plain.realtor = None;
    plain.updated_at = None;
    plain.availability = false;
    plain.buyers = Vec::new();
    let back = House::from_bytes(&plain.to_bytes()).unwrap();
    same(&plain, &back);
}

#[test]
fn codec_exact_layout() {
    let h = House {
        id: 1,
        owners_name: "A".to_string(),
        realtor: None,
        house_type: String::new(),
        location: String::new(),
        created_at: 2,
        updated_at: None,
        price: 3,
        available_units: 0,
        availability: true,
        buyers: Vec::new(),
    };
    let mut want: Vec<u8> = Vec::new();
    want.extend_from_slice(&1u64.to_le_bytes());
    want.extend_from_slice(&1u64.to_le_bytes());
    want.push(b'A');
    want.push(0);
    want.extend_from_slice(&0u64.to_le_bytes());
    want.extend_from_slice(&0u64.to_le_bytes());
    want.extend_from_slice(&2u64.to_le_bytes());
    want.push(0);
    want.extend_from_slice(&3u64.to_le_bytes());
    want.extend_from_slice(&0u64.to_le_bytes());
    want.push(1);
    want.extend_from_slice(&0u64.to_le_bytes());
    assert_eq!(want.len(), 68);
    assert_eq!(h.to_bytes(), want);
}

#[test]
fn codec_rejects_what_no_record_encodes() {
    let bytes = sample().to_bytes();
    assert!(House::from_bytes(&[]).is_none());
    assert!(House::from_bytes(&bytes[..bytes.len() - 1]).is_none());
    let mut longer = bytes.clone();
    longer.push(0);
    assert!(House::from_bytes(&longer).is_none());
    // the realtor tag follows the id (8 bytes) and the owner name (8 + 12 bytes)
    let mut bad_tag = bytes.clone();
    bad_tag[28] = 2;
    assert!(House::from_bytes(&bad_tag).is_none());
    // the owner name's first byte made a lone continuation byte
    let mut bad_text = bytes.clone();
    bad_text[16] = 0x80;
    assert!(House::from_bytes(&bad_text).is_none());
}
