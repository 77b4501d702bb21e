use cjdns_core::{
    deserialize_forms, form_size, serialize_forms, validate, EncodingSchemeError,
    EncodingSchemeForm,
};

#[test]
fn test_is_sane_forms() {
    let mut input = [
        EncodingSchemeForm { bit_count: 4, prefix_len: 1, prefix: 1 },
        EncodingSchemeForm { bit_count: 8, prefix_len: 1, prefix: 0 },
    ]
    .to_vec();

    assert!(validate(&input).is_ok());

    // test non-empty prefix in single form
    input = [EncodingSchemeForm { bit_count: 4, prefix_len: 1, prefix: 1 }].to_vec();
    assert_eq!(validate(&input), Err(EncodingSchemeError::SingleFormWithPrefix));

    // test non-valid bit_count single form
    input = [EncodingSchemeForm { bit_count: 34, prefix_len: 0, prefix: 0 }].to_vec();
    assert_eq!(validate(&input), Err(EncodingSchemeError::BadBitCount));

    // test non-valid bit_count multiple forms
    input = [
        EncodingSchemeForm { bit_count: 30, prefix_len: 1, prefix: 1 },
        EncodingSchemeForm { bit_count: 34, prefix_len: 2, prefix: 2 },
    ]
    .to_vec();
    assert_eq!(validate(&input), Err(EncodingSchemeError::BadBitCount));

    // test non valid prefix_len
    input = [
        EncodingSchemeForm { bit_count: 3, prefix_len: 32, prefix: 111 },
        EncodingSchemeForm { bit_count: 4, prefix_len: 4, prefix: 2 },
    ]
    .to_vec();
    assert_eq!(validate(&input), Err(EncodingSchemeError::MultiFormBadPrefix));

    // test bit_count not in ascending order
    input = [
        EncodingSchemeForm { bit_count: 3, prefix_len: 3, prefix: 1 },
        EncodingSchemeForm { bit_count: 4, prefix_len: 4, prefix: 2 },
        EncodingSchemeForm { bit_count: 5, prefix_len: 5, prefix: 3 },
        EncodingSchemeForm { bit_count: 4, prefix_len: 6, prefix: 4 },
        EncodingSchemeForm { bit_count: 8, prefix_len: 7, prefix: 5 },
    ]
    .to_vec();
    assert_eq!(validate(&input), Err(EncodingSchemeError::BitCountNotSorted));

    // test too big form size (bit_count + prefix_len > 59)
    input = [
        EncodingSchemeForm { bit_count: 3, prefix_len: 3, prefix: 1 },
        EncodingSchemeForm { bit_count: 31, prefix_len: 29, prefix: 5 },
    ]
    .to_vec();
    assert_eq!(validate(&input), Err(EncodingSchemeError::TooBigForm));

    // test non-unique prefix in multiple forms
    input = [
        EncodingSchemeForm { bit_count: 3, prefix_len: 3, prefix: 1 },
        EncodingSchemeForm { bit_count: 4, prefix_len: 4, prefix: 2 },
        EncodingSchemeForm { bit_count: 5, prefix_len: 5, prefix: 6 },
        EncodingSchemeForm { bit_count: 8, prefix_len: 9, prefix: 2 },
    ]
    .to_vec();
    assert_eq!(validate(&input), Err(EncodingSchemeError::DuplicatePrefix));
}

#[test]
fn test_single_forms() {
    // obj: [ { bitCount: 4, prefix: "", prefixLen: 0 } ],
    // hex: '8000'
    // 80        00
    // 1000 0000 0000 0000
    let mut input = [EncodingSchemeForm { bit_count: 4, prefix_len: 0, prefix: 0 }].to_vec();

    let mut serialized = serialize_forms(&input.to_vec()).expect("failed to serialize");
    assert_eq!(serialized, [0x80, 0x0].to_vec());
    let mut deserialized = deserialize_forms(&serialized).expect("failed to deserialize");
    assert_eq!(deserialized, input);
    assert!(validate(&deserialized).is_ok());

    // obj: [ { bitCount: 8, prefix: "", prefixLen: 0 } ],
    // hex: '0001'
    // 00        01
    // 0000 0000 0000 0001
    input = [EncodingSchemeForm { bit_count: 8, prefix_len: 0, prefix: 0 }].to_vec();

    serialized = serialize_forms(&input.to_vec()).expect("failed to serialize");
    assert_eq!(serialized, [0x0, 0x1].to_vec());
    deserialized = deserialize_forms(&serialized).expect("failed to deserialize");
    assert_eq!(deserialized, input);
    assert!(validate(&deserialized).is_ok());
}

#[test]
fn test_multiple_forms() {
    // { bitCount: 4, prefix: "01", prefixLen: 1 },
    // { bitCount: 8, prefix: "00", prefixLen: 1 },
    // 81        0c        08
    // 1000 0001 0000 1100 0000 1000
    let mut input = [
        EncodingSchemeForm { bit_count: 4, prefix_len: 1, prefix: 1 },
        EncodingSchemeForm { bit_count: 8, prefix_len: 1, prefix: 0 },
    ]
    .to_vec();

    let mut serialized = serialize_forms(&input.to_vec()).expect("failed to serialize");
    assert_eq!(serialized, [0x81, 0x0c, 0x08].to_vec());
    let mut deserialized = deserialize_forms(&serialized).expect("failed to deserialize");
    assert_eq!(deserialized, input);
    assert!(validate(&deserialized).is_ok());

    // obj: [
    //   { bitCount: 3, prefix: "01", prefixLen: 1 },
    //   { bitCount: 5, prefix: "02", prefixLen: 2 },
    //   { bitCount: 8, prefix: "00", prefixLen: 2 }
    // ],
    // hex: '6114458100'
    // 61        14        45        81  :      00
    // 0110 0001 0001 0100 0100 0101 1000 0001 0000 0000
    input = [
        EncodingSchemeForm { bit_count: 3, prefix_len: 1, prefix: 1 },
        EncodingSchemeForm { bit_count: 5, prefix_len: 2, prefix: 2 },
        EncodingSchemeForm { bit_count: 8, prefix_len: 2, prefix: 0 },
    ]
    .to_vec();

    serialized = serialize_forms(&input.to_vec()).expect("failed to serialize");
    assert_eq!(serialized, [0x61, 0x14, 0x45, 0x81, 0x0].to_vec());
    deserialized = deserialize_forms(&serialized).expect("failed to deserialize");
    assert_eq!(deserialized, input);
    assert!(validate(&deserialized).is_ok());
}

#[test]
fn test_forms_pack_with_sequental_parameters() {
    // test of forms pack with different parameters
    let mut pack: Vec<EncodingSchemeForm> = [].to_vec();
    let mut prefix = 1_u32;

    for i in 1..30 {
        let prefix_len = i;
        let bit_count = i;
        pack.push(EncodingSchemeForm { bit_count, prefix_len, prefix: prefix as u32 });
        prefix = prefix << 1;
    }

    assert!(validate(&pack).is_ok());
    let serialized = serialize_forms(&pack).expect("failed to serialize");
    let deserialized = deserialize_forms(&serialized).expect("failed to deserialize");
    assert_eq!(deserialized, pack);
}

#[test]
fn test_form_size() {
    let form = EncodingSchemeForm { bit_count: 4, prefix_len: 3, prefix: 5 };
    assert_eq!(form_size(&form), 7);
    let single = EncodingSchemeForm { bit_count: 31, prefix_len: 0, prefix: 0 };
    assert_eq!(form_size(&single), 31);
}

#[test]
fn test_validate_no_forms() {
    let input: Vec<EncodingSchemeForm> = Vec::new();
    assert_eq!(validate(&input), Err(EncodingSchemeError::NoEncodingForms));
}

#[test]
fn test_validate_form_count_limit() {
    // 31 distinguishable forms are accepted, a 32nd is one too many
    let mut input: Vec<EncodingSchemeForm> = Vec::new();
    for i in 0..31 {
        input.push(EncodingSchemeForm { bit_count: 20, prefix_len: 5, prefix: i });
    }
    assert!(validate(&input).is_ok());
    input.push(EncodingSchemeForm { bit_count: 20, prefix_len: 5, prefix: 31 });
    assert_eq!(validate(&input), Err(EncodingSchemeError::TooManyEncodingForms));
}

#[test]
fn test_serialize_bad_form() {
    // bit_count of zero cannot be expressed
    let mut input = [EncodingSchemeForm { bit_count: 0, prefix_len: 0, prefix: 0 }].to_vec();
    assert_eq!(serialize_forms(&input), Err(EncodingSchemeError::BadEncodingForm));

    // prefix_len above 31 cannot be expressed in the five-bit field
    input = [EncodingSchemeForm { bit_count: 4, prefix_len: 32, prefix: 0 }].to_vec();
    assert_eq!(serialize_forms(&input), Err(EncodingSchemeError::BadEncodingForm));
}

#[test]
fn test_serialize_without_validation() {
    // the serializer only bounds fields; it packs schemes the validator
    // rejects, and they still survive the round trip
    let input = [
        EncodingSchemeForm { bit_count: 4, prefix_len: 1, prefix: 1 },
        EncodingSchemeForm { bit_count: 4, prefix_len: 1, prefix: 1 },
    ]
    .to_vec();
    assert_eq!(validate(&input), Err(EncodingSchemeError::DuplicatePrefix));
    let serialized = serialize_forms(&input).expect("failed to serialize");
    let deserialized = deserialize_forms(&serialized).expect("failed to deserialize");
    assert_eq!(deserialized, input);
}

#[test]
fn test_deserialize_short_buffer() {
    // fewer than two bytes cannot hold the minimal ten-bit group
    let empty: Vec<u8> = Vec::new();
    assert_eq!(deserialize_forms(&empty), Err(EncodingSchemeError::BadSerializedData));
    let one = [0x80_u8].to_vec();
    assert_eq!(deserialize_forms(&one), Err(EncodingSchemeError::BadSerializedData));
}

#[test]
fn test_deserialize_two_zero_bytes() {
    // two zero bytes decode structurally (to a form the validator rejects)
    let buf = [0x00_u8, 0x00].to_vec();
    let forms = deserialize_forms(&buf).expect("failed to deserialize");
    assert_eq!(forms, [EncodingSchemeForm { bit_count: 0, prefix_len: 0, prefix: 0 }].to_vec());
    assert!(validate(&forms).is_err());
}

#[test]
fn test_deserialize_truncated_prefix() {
    // the first group announces a 31-bit prefix, but only six bits remain
    let buf = [0x1F_u8, 0x00].to_vec();
    assert_eq!(deserialize_forms(&buf), Err(EncodingSchemeError::BadSerializedData));
}

#[test]
fn test_padding_bits_zero() {
    // 35 bits used: the five high bits of the last byte stay zero
    let input = [
        EncodingSchemeForm { bit_count: 3, prefix_len: 1, prefix: 1 },
        EncodingSchemeForm { bit_count: 5, prefix_len: 2, prefix: 2 },
        EncodingSchemeForm { bit_count: 8, prefix_len: 2, prefix: 0 },
    ]
    .to_vec();
    let serialized = serialize_forms(&input).expect("failed to serialize");
    assert_eq!(serialized.len(), 5);
    assert_eq!(serialized[4] >> 3, 0);

    // 10 bits used: the six high bits of the last byte stay zero
    let single = [EncodingSchemeForm { bit_count: 4, prefix_len: 0, prefix: 0 }].to_vec();
    let serialized_single = serialize_forms(&single).expect("failed to serialize");
    assert_eq!(serialized_single.len(), 2);
    assert_eq!(serialized_single[1] >> 2, 0);
}
