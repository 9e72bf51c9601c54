use vole_rust::comm_channel::CommunicationChannel;
use vole_rust::error::VoleError;
use vole_rust::field::Fe;

fn link(from: &mut CommunicationChannel, to: &mut CommunicationChannel) {
    from.flush();
    let bytes = from.take_sent();
    to.feed(&bytes);
}

#[test]
fn bits_are_framed_by_their_count_and_packed_lowest_bit_first() {
    let mut a = CommunicationChannel::new();
    let bits = vec![true, false, false, false, false, false, false, false, true, true];
    a.send_bits(&bits);
    a.flush();
    let wire = a.take_sent();
    assert_eq!(wire, vec![10, 0, 0, 0, 0, 0, 0, 0, 0x01, 0x03]);
    let mut b = CommunicationChannel::new();
    b.feed(&wire);
    assert_eq!(b.receive_bits(), Ok(bits));
    assert_eq!(b.receive_bits(), Err(VoleError::ShortRead));
}

#[test]
fn every_kind_of_message_comes_back_as_it_was_sent() {
    let mut a = CommunicationChannel::new();
    let mut b = CommunicationChannel::new();
    let blocks16 = vec![[7u8; 16], [9u8; 16]];
    let blocks32 = vec![[1u8; 32], [2u8; 32], [3u8; 32]];
    let elements = vec![Fe::from_u64(5), Fe::zero(), Fe::from_u64(u64::MAX)];
    let point = vec![4u8; 65];
    a.send_data(&blocks16);
    a.send_32byte_block(&blocks32);
    a.send_stark252(&elements);
    a.send_point(&point);
    a.send_bits(&vec![]);
    link(&mut a, &mut b);
    assert_eq!(b.receive_data(), Ok(blocks16));
    assert_eq!(b.receive_32byte_block(), Ok(blocks32));
    assert_eq!(b.receive_stark252(3), Ok(elements));
    assert_eq!(b.receive_point(), Ok(point));
    assert_eq!(b.receive_bits(), Ok(vec![]));
}

#[test]
fn field_frame_is_the_byte_count_then_32_bytes_an_element() {
    let mut a = CommunicationChannel::new();
    a.send_stark252(&vec![Fe::from_u64(0x0102)]);
    a.flush();
    let wire = a.take_sent();
    let mut expected = vec![32u8, 0, 0, 0, 0, 0, 0, 0, 0x02, 0x01];
    expected.extend(vec![0u8; 30]);
    assert_eq!(wire, expected);
}

#[test]
fn a_frame_of_the_wrong_length_is_a_wire_format_error() {
    let mut a = CommunicationChannel::new();
    let mut b = CommunicationChannel::new();
    a.send_stark252(&vec![Fe::one(), Fe::one()]);
    link(&mut a, &mut b);
    assert_eq!(b.receive_stark252(3), Err(VoleError::WireFormat));
    // the channel is as it was: the right call still succeeds
    assert_eq!(b.receive_stark252(2), Ok(vec![Fe::one(), Fe::one()]));
    let mut c = CommunicationChannel::new();
    c.feed(&vec![17, 0, 0, 0, 0, 0, 0, 0]);
    assert_eq!(c.receive_data(), Err(VoleError::WireFormat));
    assert_eq!(c.receive_32byte_block(), Err(VoleError::WireFormat));
}

#[test]
fn a_stream_that_ends_early_is_a_short_read() {
    let mut a = CommunicationChannel::new();
    a.send_32byte_block(&vec![[5u8; 32]]);
    a.flush();
    let wire = a.take_sent();
    let mut b = CommunicationChannel::new();
    b.feed(&wire[..20].to_vec());
    assert_eq!(b.receive_32byte_block(), Err(VoleError::ShortRead));
    b.feed(&wire[20..].to_vec());
    assert_eq!(b.receive_32byte_block(), Ok(vec![[5u8; 32]]));
    let mut c = CommunicationChannel::new();
    c.feed(&vec![1, 2, 3]);
    assert_eq!(c.receive_point(), Err(VoleError::ShortRead));
}

#[test]
fn an_encoding_that_is_not_below_the_modulus_is_an_invalid_field() {
    let mut b = CommunicationChannel::new();
    let mut wire = vec![32u8, 0, 0, 0, 0, 0, 0, 0];
    wire.extend(vec![0xffu8; 32]);
    b.feed(&wire);
    assert_eq!(b.receive_stark252(1), Err(VoleError::InvalidField));
}

#[test]
fn unflushed_bytes_stay_queued() {
    let mut a = CommunicationChannel::new();
    a.send_point(&vec![1, 2, 3]);
    a.flush();
    a.send_point(&vec![9]);
    let first = a.take_sent();
    assert_eq!(first, vec![3, 0, 0, 0, 0, 0, 0, 0, 1, 2, 3]);
    assert_eq!(a.take_sent(), Vec::<u8>::new());
    a.flush();
    assert_eq!(a.take_sent(), vec![1, 0, 0, 0, 0, 0, 0, 0, 9]);
}
