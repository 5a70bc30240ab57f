use vgstore::error::StorageError;
use vgstore::numeric_encoder::EncodedTerm;
use vgstore::store::RocksDbStore;
use vgstore::term_decoder::TermDecoder;

#[test]
fn decoder_refuses_unwritable_values() {
    let store = RocksDbStore::new();
    let decoder = TermDecoder::new(&store);
    // Months -1 and one second: opposite signs.
    let mut duration = [0u8; 24];
    duration[0..8].copy_from_slice(&(-1i64).to_be_bytes());
    duration[8..24].copy_from_slice(&1_000_000_000_000_000_000i128.to_be_bytes());
    assert!(matches!(
        decoder.decode_term(&EncodedTerm::DurationLiteral(duration)),
        Err(StorageError::Corruption(_))
    ));
    // The same seconds with one month can be written.
    duration[0..8].copy_from_slice(&1i64.to_be_bytes());
    assert!(decoder.decode_term(&EncodedTerm::DurationLiteral(duration)).is_ok());
    // A timezone offset of -32768 minutes.
    let mut date = [0u8; 18];
    date[16] = 0x80;
    assert!(matches!(
        decoder.decode_term(&EncodedTerm::DateTimeLiteral(date)),
        Err(StorageError::Corruption(_))
    ));
    assert!(matches!(
        decoder.decode_term(&EncodedTerm::GYearLiteral(date)),
        Err(StorageError::Corruption(_))
    ));
    // No timezone.
    date[16] = 0xFF;
    date[17] = 0xFF;
    assert!(decoder.decode_term(&EncodedTerm::DateTimeLiteral(date)).is_ok());
    assert!(matches!(
        decoder.decode_term(&EncodedTerm::DefaultGraph),
        Err(StorageError::Corruption(_))
    ));
}

#[test]
fn decoder_writes_integers_in_decimal() {
    let store = RocksDbStore::new();
    let decoder = TermDecoder::new(&store);
    for (i, text) in [(0i64, "0"), (42, "42"), (-7, "-7"), (i64::MIN, "-9223372036854775808"), (i64::MAX, "9223372036854775807")] {
        match decoder.decode_term(&EncodedTerm::IntegerLiteral(i)).unwrap() {
            vgstore::model::Term::Literal(vgstore::model::Literal::Typed { value, .. }) => assert_eq!(value, text),
            _ => panic!("an integer literal"),
        }
    }
}
