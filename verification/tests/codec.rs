use archive_core::codec::{decode, encode, parsed_or_corrupted, temp_name};
use archive_core::error::Error;

fn save<T: serde::Serialize>(data: &T) -> Vec<u8> {
    encode(&bincode::serialize(data).unwrap()).unwrap()
}

fn load<T: serde::de::DeserializeOwned>(bytes: &[u8]) -> Result<T, Error> {
    let payload = decode(bytes)?;
    parsed_or_corrupted(bincode::deserialize(&payload).ok())
}

#[test]
fn serializer_serialize_and_deserilize() {
    {
        type Data = [i32; 4];
        let data: Data = [1, 2, 3, 4];

        let file = save(&data);
        let loaded: Data = load(&file).unwrap();

        assert_eq!(data.len(), loaded.len());
        assert!(data.iter().zip(loaded.iter()).all(|(a, b)| a == b));
    }
    {
        type Data = Vec<u8>;
        let data: Data = vec![3, 1, 4, 1, 5, 9, 2, 7];

        let file = save(&data);
        let loaded: Data = load(&file).unwrap();

        assert_eq!(data.len(), loaded.len());
        assert!(data.iter().zip(loaded.iter()).all(|(a, b)| a == b));
    }
}

#[test]
fn serializer_load_data_of_random_file_throws_corrupted_data() {
    let file = save(&[1u8, 2, 3]);
    let result = load::<i64>(&file);

    assert_eq!(format!("{:?}", result), "Err(DataIsCorrupted)");
}

#[test]
fn save_data_overwrites_content() {
    type Data = Vec<u8>;
    let data_a: Data = vec![3, 1, 4, 1, 5, 9, 2, 7];
    let data_b: Data = vec![6, 5, 2, 1];

    let mut file = save(&data_a);
    assert_eq!(data_a, load::<Data>(&file).unwrap());
    file = save(&data_b);

    let loaded: Data = load(&file).unwrap();

    assert_eq!(data_b.len(), loaded.len());
    assert!(data_b.iter().zip(loaded.iter()).all(|(a, b)| a == b));
}

#[test]
fn encoding_compresses_and_decoding_gives_the_payload_back() {
    let payload: Vec<u8> = (0..10_000u32).map(|i| (i % 7) as u8).collect();
    let frame = encode(&payload).unwrap();
    assert_ne!(payload, frame);
    assert!(frame.len() < payload.len());
    assert_eq!(payload, decode(&frame).unwrap());
    assert_eq!(Vec::<u8>::new(), decode(&encode(&[]).unwrap()).unwrap());
}

#[test]
fn bytes_that_are_no_frame_are_corrupted_data() {
    assert_eq!(
        "Err(DataIsCorrupted)",
        format!("{:?}", decode(&[2, 1, 5, 0]))
    );
    let mut frame = encode(&[7u8; 100]).unwrap();
    frame.truncate(frame.len() - 3);
    assert_eq!("Err(DataIsCorrupted)", format!("{:?}", decode(&frame)));
    let mut frame = encode(&[7u8; 100]).unwrap();
    frame[0] ^= 0xff;
    assert_eq!("Err(DataIsCorrupted)", format!("{:?}", decode(&frame)));
}

#[test]
fn temp_names() {
    assert_eq!("2021_05_06 13_52_05.bin.tmp", temp_name("2021_05_06 13_52_05.bin"));
    assert_eq!("data..tmp", temp_name("data"));
    assert_eq!(".lock..tmp", temp_name(".lock"));
    assert_eq!("a.b.c.tmp", temp_name("a.b.c"));
}

#[test]
fn one_payload_has_one_frame() {
    let payload: Vec<u8> = (0..2000u32).map(|i| (i % 7) as u8).collect();
    let frame = encode(&payload).unwrap();
    assert_eq!(frame, encode(&payload).unwrap());
    assert_ne!(frame, payload);
    assert!(frame.len() < payload.len());
    assert_eq!(payload, decode(&frame).unwrap());
    let empty = encode(&[]).unwrap();
    assert!(!empty.is_empty());
    assert_eq!(Vec::<u8>::new(), decode(&empty).unwrap());
}
