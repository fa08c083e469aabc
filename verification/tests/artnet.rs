use artnet_protocol::{ArtCommand, PortAddress};
use dmx_relay::artnet::{
    cap_payload, encode_output, EncodeError, ARTNET_PORT, CHANNEL_CAPACITY, MAX_PORT_ADDRESS,
};

const HEADER: [u8; 12] = [65, 114, 116, 45, 78, 101, 116, 0, 0, 80, 0, 14];

fn ramp(len: usize) -> Vec<u8> {
    (0..len).map(|i| (i % 251) as u8 + 1).collect()
}

#[test]
fn constants_are_those_of_art_net() {
    assert_eq!(ARTNET_PORT, 6454);
    assert_eq!(CHANNEL_CAPACITY, 512);
    assert_eq!(MAX_PORT_ADDRESS, 32767);
}

#[test]
fn cap_payload_keeps_a_short_frame() {
    assert_eq!(cap_payload(&vec![1, 2, 3]), vec![1, 2, 3]);
    assert_eq!(cap_payload(&Vec::new()), Vec::<u8>::new());
    assert_eq!(cap_payload(&ramp(512)), ramp(512));
}

#[test]
fn cap_payload_cuts_after_512_values() {
    let long = ramp(600);
    let capped = cap_payload(&long);
    assert_eq!(capped.len(), 512);
    assert_eq!(capped[..], long[..512]);
    assert_eq!(cap_payload(&ramp(513)), ramp(513)[..512].to_vec());
}

#[test]
fn encode_single_value_is_padded_to_two() {
    let bytes = encode_output(1, &vec![255]).unwrap();
    let expected: Vec<u8> =
        vec![65, 114, 116, 45, 78, 101, 116, 0, 0, 80, 0, 14, 0, 0, 1, 0, 0, 2, 255, 0];
    assert_eq!(bytes, expected);
}

#[test]
fn encode_even_payload_is_not_padded() {
    let bytes = encode_output(0x1234, &vec![9, 8, 7, 6]).unwrap();
    let mut expected = HEADER.to_vec();
    expected.extend_from_slice(&[0, 0, 0x34, 0x12, 0, 4, 9, 8, 7, 6]);
    assert_eq!(bytes, expected);
}

#[test]
fn encode_full_universe() {
    let bytes = encode_output(32767, &vec![128; 512]).unwrap();
    let mut expected = HEADER.to_vec();
    expected.extend_from_slice(&[0, 0, 0xff, 0x7f, 2, 0]);
    expected.extend_from_slice(&[128; 512]);
    assert_eq!(bytes, expected);
}

#[test]
fn encode_odd_payload_above_one_length_byte() {
    let data = ramp(299);
    let bytes = encode_output(0, &data).unwrap();
    let mut expected = HEADER.to_vec();
    expected.extend_from_slice(&[0, 0, 0, 0, 1, 44]);
    expected.extend_from_slice(&data);
    expected.push(0);
    assert_eq!(bytes, expected);
}

#[test]
fn encode_cuts_a_long_frame_to_512_values() {
    let data = ramp(600);
    let bytes = encode_output(5, &data).unwrap();
    assert_eq!(bytes.len(), 18 + 512);
    assert_eq!(bytes[16..18], [2, 0]);
    assert_eq!(bytes[18..], data[..512]);
    assert_eq!(bytes, encode_output(5, &data[..512].to_vec()).unwrap());
}

#[test]
fn encode_rejects_a_universe_beyond_art_net() {
    assert_eq!(
        encode_output(32768, &vec![1, 2]),
        Err(EncodeError::UniverseOutOfRange { universe: 32768 })
    );
    assert_eq!(
        encode_output(65535, &vec![1, 2]),
        Err(EncodeError::UniverseOutOfRange { universe: 65535 })
    );
    assert!(encode_output(32767, &vec![1, 2]).is_ok());
}

#[test]
fn encode_rejects_an_empty_frame() {
    assert_eq!(encode_output(1, &Vec::new()), Err(EncodeError::EmptyPayload));
    assert_eq!(encode_output(0, &Vec::new()), Err(EncodeError::EmptyPayload));
}

#[test]
fn encode_reports_the_universe_before_the_payload() {
    assert_eq!(
        encode_output(40000, &Vec::new()),
        Err(EncodeError::UniverseOutOfRange { universe: 40000 })
    );
}

#[test]
fn encoded_packet_is_read_back_by_the_codec() {
    let data = ramp(300);
    let bytes = encode_output(777, &data).unwrap();
    match ArtCommand::from_buffer(&bytes).unwrap() {
        ArtCommand::Output(output) => {
            assert_eq!(output.port_address, PortAddress::try_from(777u16).unwrap());
            assert_eq!(output.version, [0, 14]);
            assert_eq!(output.sequence, 0);
            assert_eq!(output.physical, 0);
            assert_eq!(*output.length, 300);
            assert_eq!(output.data.as_ref(), &data);
        }
        other => panic!("not an output packet: {:?}", other),
    }
}
