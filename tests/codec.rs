use bitcoin_hashes::Hash as HashTrait;
use fedimint_consensus::module_types::{
    DecodeError, DecodedDyn, Decoder, DynKind, DynUnknown, DynValue, ModuleDecoderRegistry,
    ModuleKind, OperationId, OperationIdParseError,
};
use fedimint_consensus::transaction::Transaction;

fn registry_with_input_decoder(id: u16) -> ModuleDecoderRegistry {
    let mut builder = Decoder::builder();
    builder.with_decodable_type(DynKind::Input);
    builder.with_decodable_type(DynKind::Output);
    let mut registry = ModuleDecoderRegistry::new();
    registry.register(id, builder.build());
    registry
}

#[test]
fn dyn_value_round_trips_through_registry() {
    let v = DynValue::new(3, vec![0xde, 0xad, 0xbe, 0xef]);
    let mut buf = vec![0x77];
    v.consensus_encode(&mut buf);
    buf.push(0x55);
    assert_eq!(buf, vec![0x77, 0, 3, 0, 0, 0, 0, 0, 0, 0, 4, 0xde, 0xad, 0xbe, 0xef, 0x55]);
    let registry = registry_with_input_decoder(3);
    match registry.decode_dyn(&buf, 1, DynKind::Input) {
        Ok((DecodedDyn::Known(d), next)) => {
            assert_eq!(d.module_instance_id, 3);
            assert_eq!(d.payload, vec![0xde, 0xad, 0xbe, 0xef]);
            assert!(d == v);
            assert_eq!(next, 15);
        }
        other => panic!("unexpected {:?}", other),
    }
}

#[test]
fn unknown_module_is_kept_as_raw_payload() {
    let v = DynValue::new(9, vec![1, 2]);
    let mut buf = Vec::new();
    v.consensus_encode(&mut buf);
    let registry = registry_with_input_decoder(3);
    match registry.decode_dyn(&buf, 0, DynKind::Input) {
        Ok((DecodedDyn::Unknown(id, DynUnknown(bytes)), next)) => {
            assert_eq!(id, 9);
            assert_eq!(bytes, vec![1, 2]);
            assert_eq!(next, buf.len());
        }
        other => panic!("unexpected {:?}", other),
    }
}

#[test]
fn unregistered_kind_and_truncation_are_errors() {
    let v = DynValue::new(3, vec![1, 2, 3]);
    let mut buf = Vec::new();
    v.consensus_encode(&mut buf);
    let registry = registry_with_input_decoder(3);
    assert!(matches!(
        registry.decode_dyn(&buf, 0, DynKind::ConsensusItem),
        Err(DecodeError::UnregisteredType)
    ));
    assert!(matches!(
        registry.decode_dyn(&buf[..buf.len() - 1], 0, DynKind::Input),
        Err(DecodeError::Truncated)
    ));
    assert!(matches!(registry.decode_dyn(&buf, buf.len() - 1, DynKind::Input), Err(DecodeError::Truncated)));
}

#[test]
fn equality_ignores_instance_id() {
    let a = DynValue::new(1, vec![5, 6]);
    let b = DynValue::new(2, vec![5, 6]);
    let c = DynValue::new(1, vec![5, 7]);
    assert!(a == b);
    assert!(a != c);
}

#[test]
fn decoder_builder_records_kinds() {
    let mut builder = Decoder::builder();
    assert!(!builder.has_decodable_type(DynKind::Output));
    builder.with_decodable_type(DynKind::Output);
    assert!(builder.has_decodable_type(DynKind::Output));
    let decoder = builder.build();
    assert!(decoder.can_decode(DynKind::Output));
    assert!(!decoder.can_decode(DynKind::Input));
    let d = decoder.decode(&[4, 4], DynKind::Output, 12);
    assert_eq!(d.module_instance_id, 12);
    assert_eq!(d.payload, vec![4, 4]);
}

#[test]
fn dyn_unknown_hex_covers_length_prefix() {
    let u = DynUnknown(vec![0xab, 0x01]);
    assert_eq!(u.to_hex_string(), "0000000000000002ab01");
}

#[test]
fn module_kind_keeps_its_name() {
    let k = ModuleKind::from_static_str("mint");
    assert_eq!(k.as_str(), "mint");
    let w = ModuleKind::clone_from_str("wallet");
    assert_eq!(w.as_str(), "wallet");
}

#[test]
fn operation_id_hex_round_trip() {
    let id = OperationId([0x5a; 32]);
    let text = id.to_hex_string();
    assert_eq!(text, "5a".repeat(32));
    assert_eq!(OperationId::parse_hex(&text).unwrap(), id);
    assert_eq!(OperationId::parse_hex("zz"), Err(OperationIdParseError::InvalidHex));
    assert_eq!(OperationId::parse_hex("abc"), Err(OperationIdParseError::InvalidHex));
    assert_eq!(OperationId::parse_hex("abcd"), Err(OperationIdParseError::WrongLength));
    assert_eq!(OperationId::parse_hex(&"AB".repeat(32)).unwrap(), OperationId([0xab; 32]));
}

#[test]
fn random_operation_ids_differ() {
    assert_ne!(OperationId::new_random(), OperationId::new_random());
}

#[test]
fn tx_hash_is_sha256_of_body() {
    let tx = Transaction {
        inputs: vec![DynValue::new(1, vec![1, 2, 3])],
        outputs: vec![DynValue::new(2, vec![])],
        signature: Some(vec![9; 64]),
    };
    let mut body = Vec::new();
    tx.encode_body(&mut body);
    assert_eq!(
        body,
        vec![0, 0, 0, 0, 0, 0, 0, 1, 0, 1, 0, 0, 0, 0, 0, 0, 0, 3, 1, 2, 3, 0, 0, 0, 0, 0, 0, 0, 1, 0, 2, 0, 0, 0, 0, 0, 0, 0, 0]
    );
    let expected = bitcoin_hashes::sha256::Hash::hash(&body).into_inner();
    assert_eq!(tx.tx_hash(), expected);
    let unsigned = Transaction { inputs: tx.inputs, outputs: tx.outputs, signature: None };
    assert_eq!(unsigned.tx_hash(), expected);
}
