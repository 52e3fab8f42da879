use itertools::Itertools;
use rand::Rng;
use varint_test::varint_gb::{
    decode_chunk, decode_chunk_by_address, decode_chunk_by_address_to_address,
    decode_chunk_safe_non_simd, decode_chunk_to, decode_chunk_to_address, deltas_to_values,
    descriptor_length_i, descriptor_length_total, shuffle_sequence_from_descriptor,
    DescriptorTable, VarintGB, VarintGBFactory,
};
use varint_test::OrderingViolation;

/// Pushes `values` and seals the sequence.
fn sealed(values: &[u32]) -> VarintGB {
    let mut factory = VarintGBFactory::new();
    for value in values {
        factory.push_int(*value).unwrap();
    }
    factory.into_varint_gb()
}

/// All values that the iterator hands out, cut to the number of values.
fn collected(sequence: &VarintGB, table: &DescriptorTable) -> Vec<u32> {
    let mut iter = sequence.iter(table);
    let count = iter.len();
    let mut values = Vec::new();
    while let Some(chunk) = iter.next() {
        for value in chunk {
            if values.len() < count {
                values.push(value);
            }
        }
    }
    values
}

/// A reader that knows nothing of descriptors tables or shuffles: it walks
/// the bytes one by one.
fn reference_decode(bytes: &[u8], count: usize) -> Vec<u32> {
    let mut values = Vec::new();
    let mut at = 0;
    let mut last = 0u32;
    while values.len() < count {
        let descriptor = bytes[at];
        at += 1;
        for slot in 0..4 {
            if values.len() == count {
                break;
            }
            let width = ((descriptor >> (2 * slot)) & 3) as usize + 1;
            let mut delta = 0u32;
            for position in 0..width {
                delta |= (bytes[at] as u32) << (8 * position);
                at += 1;
            }
            last += delta;
            values.push(last);
        }
    }
    assert_eq!(at, bytes.len());
    values
}

#[test]
pub fn test_safe_decoder_non_simd() {
    let byte_stream = [0b11111001, 0b11111111, 1, 1, 1];
    let descriptor = 0b00000001u8;
    let vals = decode_chunk_safe_non_simd(descriptor, &byte_stream);
    for val in vals {
        println!("{val}");
    }
    assert_eq!(vals, [65529, 1, 1, 1]);

    let u16 = 0b1111100111111111;
    let u16_2 = 0b1111111111111100;
    println!("u16: {u16_2}");
    assert_eq!(u16, 63999);
}

#[test]
fn test_of_sequence() {
    let no_of_inserts = 100000;
    let mut reference_vector = Vec::new();
    let mut seq_factory = VarintGBFactory::new();

    let mut rng = rand::thread_rng();
    for _ in 0..no_of_inserts {
        reference_vector.push(rng.gen_range(1..no_of_inserts) as u32);
    }

    reference_vector.sort();
    reference_vector = reference_vector.iter().unique().map(|i| *i).collect();

    for val in reference_vector.iter() {
        seq_factory.push_int(*val).unwrap();
    }
    let seq = seq_factory.into_varint_gb();

    let shuffle_table = DescriptorTable::new();

    let mut seq_values_iter = seq.iter(&shuffle_table);
    let mut reference_iter = reference_vector.iter();

    let mut seen = 0;
    while let Some(chunk) = seq_values_iter.next() {
        for num in chunk {
            if let Some(ref_num) = reference_iter.next() {
                assert_eq!(num, *ref_num);
                seen += 1;
            }
        }
    }
    assert_eq!(seen, reference_vector.len());
    assert_eq!(seq.len(), reference_vector.len());
    assert_eq!(seq.get_values(&shuffle_table), reference_vector);
}

#[test]
fn test_descriptor_length_i() {
    let descriptor = 0b00011011u8;
    for i in 0..4 {
        assert_eq!(4 - i, descriptor_length_i(descriptor, i) as usize);
    }
}

#[test]
fn test_delta_conversion() {
    let mut v = Vec::new();
    v.push(1);
    v.push(1);
    v.push(1);

    let v = deltas_to_values(&v);
    for i in 0..3 {
        assert_eq!(v[i] as usize, i + 1);
    }
}

#[test]
fn test_len() {
    let mut v = Vec::new();
    v.push(1);
    v.push(1);
    v.push(1);
    v.push(2);
    v.push(5);

    assert_eq!(v.len(), 5);
}

#[test]
fn test_chunk_decoder() {
    let mut chunk_vec = Vec::new();
    let descriptor = 0b00000100u8;

    chunk_vec.push(1);

    chunk_vec.push(0);
    chunk_vec.push(1);

    chunk_vec.push(4);
    chunk_vec.push(5);

    while chunk_vec.len() < 16 {
        chunk_vec.push(0);
    }

    let chunk_16: &[u8; 16] = &chunk_vec.try_into().ok().unwrap();
    let output = decode_chunk(
        chunk_16,
        DescriptorTable::new().get_shuffle_for_descriptor(descriptor),
    );
    for i in output {
        println!("{}", i);
    }
    assert_eq!(output, [1, 256, 4, 5]);

    let output2 = decode_chunk_by_address(
        chunk_16,
        0,
        DescriptorTable::new().get_shuffle_for_descriptor(descriptor),
    );
    for i in output2 {
        println!("{}", i);
    }
    assert_eq!(output2, [1, 256, 4, 5]);
}

#[test]
fn varint_gb_test_bench() {
    let mut cis_gb_fact = VarintGBFactory::new();
    cis_gb_fact.push_int(1).unwrap();
    cis_gb_fact.push_int(2).unwrap();
    cis_gb_fact.push_int(3).unwrap();
    cis_gb_fact.push_int(4).unwrap();

    cis_gb_fact.push_int(5).unwrap();
    cis_gb_fact.push_int(6).unwrap();
    cis_gb_fact.push_int(7).unwrap();
    cis_gb_fact.push_int(8).unwrap();

    cis_gb_fact.push_int(65536 + 1).unwrap();
    cis_gb_fact.push_int(65536 + 2).unwrap();
    cis_gb_fact.push_int(65536 + 3).unwrap();
    cis_gb_fact.push_int(65536 + 4).unwrap();
    cis_gb_fact.push_int(65536 + 5).unwrap();

    println!("{}", cis_gb_fact.no_of_chunks());
    assert_eq!(cis_gb_fact.no_of_chunks(), 4);

    let varint_gb = cis_gb_fact.into_varint_gb();
    println!("Bytes:");
    for (index, byte) in varint_gb.byte_stream().iter().enumerate() {
        println!("{index} : {byte:#08b}");
    }

    let shuffle_table = DescriptorTable::new();

    println!("Nums unsafe:");
    let mut chunks = varint_gb.iter(&shuffle_table);
    while let Some(chunk) = chunks.next() {
        for num in chunk {
            println!("{}", num);
        }
    }
}

#[test]
fn concrete_thirteen_values() {
    let values = [1, 2, 3, 4, 5, 6, 7, 8, 65537, 65538, 65539, 65540, 65541];
    let sequence = sealed(&values);
    assert_eq!(sequence.len(), 13);
    assert_eq!(
        sequence.byte_stream(),
        &[
            0b00000000, 1, 1, 1, 1, // 1 2 3 4
            0b00000000, 1, 1, 1, 1, // 5 6 7 8
            0b00000001, 0xF9, 0xFF, 1, 1, 1, // 65537: 65529 further, in two bytes
            0b00000000, 1, // 65541
        ]
    );

    let table = DescriptorTable::new();
    assert_eq!(sequence.get_values(&table), values);
    assert_eq!(collected(&sequence, &table), values);

    let mut iter = sequence.iter(&table);
    assert_eq!(iter.len(), 13);
    assert_eq!(iter.next(), Some([1, 2, 3, 4]));
    assert_eq!(iter.next(), Some([5, 6, 7, 8]));
    assert_eq!(iter.next(), Some([65537, 65538, 65539, 65540]));
    assert_eq!(iter.next(), Some([65541, 65541, 65541, 65541]));
    assert_eq!(iter.next(), None);
    assert_eq!(iter.next(), None);
    assert_eq!(iter.len(), 13);
}

#[test]
fn gb_empty_and_single() {
    let table = DescriptorTable::new();

    let empty = VarintGB::new();
    assert_eq!(empty.len(), 0);
    assert!(empty.byte_stream().is_empty());
    assert_eq!(empty.get_values(&table), Vec::<u32>::new());
    assert_eq!(empty.iter(&table).next(), None);

    let also_empty = sealed(&[]);
    assert_eq!(also_empty.len(), 0);
    assert!(also_empty.byte_stream().is_empty());
    assert_eq!(also_empty.get_values(&table), Vec::<u32>::new());

    let single = sealed(&[77]);
    assert_eq!(single.len(), 1);
    assert_eq!(single.byte_stream(), &[0, 77]);
    assert_eq!(single.get_values(&table), vec![77]);
    let mut iter = single.iter(&table);
    assert_eq!(iter.next(), Some([77, 77, 77, 77]));
    assert_eq!(iter.next(), None);
}

#[test]
fn gb_width_boundaries() {
    // a distance of zero takes one byte, and its width field is zero
    let zero = sealed(&[0]);
    assert_eq!(zero.byte_stream(), &[0b00, 0]);

    let table = DescriptorTable::new();
    let cases: [(u32, u8, &[u8]); 8] = [
        (0, 0, &[0]),
        (0xFF, 0, &[0xFF]),
        (0x100, 1, &[0, 1]),
        (0xFFFF, 1, &[0xFF, 0xFF]),
        (0x1_0000, 2, &[0, 0, 1]),
        (0xFF_FFFF, 2, &[0xFF, 0xFF, 0xFF]),
        (0x100_0000, 3, &[0, 0, 0, 1]),
        (u32::MAX, 3, &[0xFF, 0xFF, 0xFF, 0xFF]),
    ];
    for (delta, field, payload) in cases {
        for slot in 0..4u32 {
            // `slot` values of distance 1 in front, then the distance in question
            let mut factory = VarintGBFactory::new();
            let mut expected_bytes = vec![field << (2 * slot)];
            let mut values = Vec::new();
            let room = u32::MAX - delta;
            let lead = if room >= slot { slot } else { room };
            if lead != slot {
                continue;
            }
            for step in 0..slot {
                factory.push_int(step + 1).unwrap();
                values.push(step + 1);
                expected_bytes.push(1);
            }
            factory.push_int(slot + delta).unwrap();
            values.push(slot + delta);
            expected_bytes.extend_from_slice(payload);
            let sequence = factory.into_varint_gb();
            assert_eq!(sequence.byte_stream(), &expected_bytes[..]);
            assert_eq!(sequence.get_values(&table), values);
        }
    }

    // two to the power 24 takes exactly four bytes, width field 3
    let wide = sealed(&[1 << 24]);
    assert_eq!(wide.byte_stream(), &[0b11, 0, 0, 0, 1]);
}

#[test]
fn repeated_values_are_kept_by_push_int() {
    let table = DescriptorTable::new();
    let sequence = sealed(&[0, 0, 5, 5, 5, 9]);
    assert_eq!(sequence.len(), 6);
    assert_eq!(sequence.byte_stream(), &[0, 0, 0, 5, 0, 0, 0, 4]);
    assert_eq!(sequence.get_values(&table), vec![0, 0, 5, 5, 5, 9]);
    assert_eq!(collected(&sequence, &table), vec![0, 0, 5, 5, 5, 9]);
}

#[test]
fn gb_a_value_below_the_top_is_refused() {
    let mut factory = VarintGBFactory::new();
    assert_eq!(factory.get_top(), 0);
    assert_eq!(factory.push_int(10), Ok(()));
    assert_eq!(factory.get_top(), 10);
    assert_eq!(factory.push_int(9), Err(OrderingViolation { top: 10, value: 9 }));
    assert_eq!(factory.push_if_not_on_top(3), Err(OrderingViolation { top: 10, value: 3 }));
    assert_eq!(factory.get_top(), 10);
    assert_eq!(factory.no_of_chunks(), 1);
    assert_eq!(factory.push_int(10), Ok(()));
    assert_eq!(factory.push_int(11), Ok(()));
    let sequence = factory.into_varint_gb();
    assert_eq!(sequence.get_values(&DescriptorTable::new()), vec![10, 10, 11]);
}

#[test]
fn a_repeat_is_passed_over_by_the_other_push() {
    let table = DescriptorTable::new();

    let mut once = VarintGBFactory::new();
    once.push_if_not_on_top(7).unwrap();
    let once = once.into_varint_gb();

    let mut twice = VarintGBFactory::new();
    twice.push_if_not_on_top(7).unwrap();
    assert_eq!(twice.push_if_not_on_top(7), Ok(()));
    assert_eq!(twice.get_top(), 7);
    let twice = twice.into_varint_gb();

    assert_eq!(twice.len(), 1);
    assert_eq!(twice.len(), once.len());
    assert_eq!(twice.byte_stream(), once.byte_stream());
    assert_eq!(twice.get_values(&table), vec![7]);

    // zero is what a new factory has on top
    let mut fresh = VarintGBFactory::new();
    assert_eq!(fresh.push_if_not_on_top(0), Ok(()));
    assert_eq!(fresh.into_varint_gb().len(), 0);
}

#[test]
fn gb_the_factory_is_new_after_it_hands_over() {
    let table = DescriptorTable::new();
    let mut factory = VarintGBFactory::new();
    factory.push_int(4).unwrap();
    factory.push_int(8).unwrap();
    let first = factory.into_varint_gb();
    assert_eq!(first.get_values(&table), vec![4, 8]);

    let second = factory.into_varint_gb();
    assert_eq!(second.len(), 0);
    assert!(second.byte_stream().is_empty());
    assert_eq!(factory.get_top(), 0);
    assert_eq!(factory.no_of_chunks(), 0);

    factory.push_int(3).unwrap();
    let third = factory.into_varint_gb();
    assert_eq!(third.byte_stream(), &[0, 3]);
    assert_eq!(third.get_values(&table), vec![3]);
}

#[test]
fn every_distance_from_the_end() {
    let table = DescriptorTable::new();
    // distances of every width, in an order that puts each width in each slot
    let steps: [u32; 7] = [1, 0x1234, 3, 0x12_3456, 0x1234_5678 >> 4, 200, 0x10000];
    for count in 0..60usize {
        for shift in 0..steps.len() {
            let mut values = Vec::new();
            let mut last = 0u32;
            for i in 0..count {
                last += steps[(i + shift) % steps.len()];
                values.push(last);
            }
            let sequence = sealed(&values);
            assert_eq!(sequence.len(), count);
            assert_eq!(sequence.get_values(&table), values);
            assert_eq!(collected(&sequence, &table), values);
            assert_eq!(reference_decode(sequence.byte_stream(), count), values);
        }
    }
}

#[test]
fn the_last_group_is_near_the_end() {
    let steps: [u32; 5] = [0x0100_0000, 0xFF, 0x1_0000, 0x100, 0xFFFF_FF];
    for count in 1..40usize {
        let mut values = Vec::new();
        let mut last = 0u32;
        for i in 0..count {
            last += steps[i % steps.len()];
            values.push(last);
        }
        let sequence = sealed(&values);
        let bytes = sequence.byte_stream();
        // walk to the descriptor of the last group
        let mut position = 0;
        for _ in 0..(count - 1) / 4 {
            position += 1 + descriptor_length_total(bytes[position]) as usize;
        }
        assert!(position + 17 >= bytes.len());
        assert!(position < bytes.len());
    }
}

#[test]
fn the_shuffle_gives_what_the_scalar_reader_gives() {
    let mut table = DescriptorTable::new();
    let mut payload = [0u8; 16];
    for (i, byte) in payload.iter_mut().enumerate() {
        *byte = (i as u8).wrapping_mul(37).wrapping_add(11);
    }
    for descriptor in 0..=255u8 {
        let mask = table.get_shuffle_for_descriptor(descriptor);
        assert_eq!(mask, shuffle_sequence_from_descriptor(descriptor));
        let fast = decode_chunk(&payload, mask);
        let scalar = decode_chunk_safe_non_simd(descriptor, &payload);
        assert_eq!(fast, scalar);

        let mut stream = vec![descriptor];
        stream.extend_from_slice(&payload);
        assert_eq!(decode_chunk_by_address(&stream, 1, mask), scalar);

        let mut destination = [0u32; 4];
        decode_chunk_to_address(&payload, mask, &mut destination);
        assert_eq!(destination, scalar);

        let mut destination = [0u32; 4];
        decode_chunk_by_address_to_address(&stream, 1, mask, &mut destination);
        assert_eq!(destination, scalar);

        let mut destination_vec = vec![[9u32; 4]];
        decode_chunk_to(&payload, mask, &mut destination_vec);
        assert_eq!(destination_vec, vec![[9u32; 4], scalar]);
    }
}

#[test]
fn the_shuffle_mask_of_a_descriptor() {
    assert_eq!(
        shuffle_sequence_from_descriptor(0b00000100),
        [0, -1, -1, -1, 1, 2, -1, -1, 3, -1, -1, -1, 4, -1, -1, -1]
    );
    assert_eq!(
        shuffle_sequence_from_descriptor(0b11111111),
        [0, 1, 2, 3, 4, 5, 6, 7, 8, 9, 10, 11, 12, 13, 14, 15]
    );
    assert_eq!(
        shuffle_sequence_from_descriptor(0b00011011),
        [0, 1, 2, 3, 4, 5, 6, -1, 7, 8, -1, -1, 9, -1, -1, -1]
    );
}

#[test]
fn a_negative_selector_gives_zero_and_only_four_bits_select() {
    let mut chunk = [0u8; 16];
    for (i, byte) in chunk.iter_mut().enumerate() {
        *byte = 0xA0 + i as u8;
    }
    let mask: [i8; 16] = [0, -1, -128, 16, 17, 0x7F, 3, 2, 1, 0, -2, 15, 14, 13, 12, 11];
    let lanes = decode_chunk(&chunk, mask);
    assert_eq!(lanes[0], u32::from_le_bytes([0xA0, 0, 0, 0xA0]));
    assert_eq!(lanes[1], u32::from_le_bytes([0xA1, 0xAF, 0xA3, 0xA2]));
    assert_eq!(lanes[2], u32::from_le_bytes([0xA1, 0xA0, 0, 0xAF]));
    assert_eq!(lanes[3], u32::from_le_bytes([0xAE, 0xAD, 0xAC, 0xAB]));
}

#[test]
fn the_scalar_reader_gives_zero_where_the_bytes_end() {
    // widths 2, 1, 3, 1
    let descriptor = 0b00_10_00_01u8;
    let full = [0x34, 0x12, 0x56, 0x01, 0x02, 0x03, 0x09];
    assert_eq!(decode_chunk_safe_non_simd(descriptor, &full), [0x1234, 0x56, 0x030201, 0x09]);
    assert_eq!(decode_chunk_safe_non_simd(descriptor, &full[..6]), [0x1234, 0x56, 0x030201, 0]);
    assert_eq!(decode_chunk_safe_non_simd(descriptor, &full[..5]), [0x1234, 0x56, 0, 0]);
    assert_eq!(decode_chunk_safe_non_simd(descriptor, &full[..3]), [0x1234, 0x56, 0, 0]);
    assert_eq!(decode_chunk_safe_non_simd(descriptor, &full[..2]), [0x1234, 0, 0, 0]);
    assert_eq!(decode_chunk_safe_non_simd(descriptor, &full[..1]), [0, 0, 0, 0]);
    assert_eq!(decode_chunk_safe_non_simd(descriptor, &[]), [0, 0, 0, 0]);
}

#[test]
fn the_table_holds_the_sum_of_the_four_widths() {
    let mut table = DescriptorTable::new();
    for descriptor in 0..=255u8 {
        let mut sum = 0;
        for slot in 0..4 {
            let width = descriptor_length_i(descriptor, slot);
            assert_eq!(width, ((descriptor >> (2 * slot)) & 0b11) + 1);
            sum += width;
        }
        assert_eq!(table.get_length_for_descriptor(descriptor), sum);
        assert_eq!(descriptor_length_total(descriptor), sum);
    }
    assert_eq!(table.get_length_for_descriptor(0), 4);
    assert_eq!(table.get_length_for_descriptor(0b11111111), 16);
    assert_eq!(table.get_length_for_descriptor(0b00011011), 10);
}

#[test]
fn distances_of_zero_are_passed_over() {
    assert_eq!(deltas_to_values(&[]), Vec::<u32>::new());
    assert_eq!(deltas_to_values(&[0, 0]), Vec::<u32>::new());
    assert_eq!(deltas_to_values(&[3, 0, 4, 0, 0, 1]), vec![3, 7, 8]);
    assert_eq!(deltas_to_values(&[u32::MAX - 1, 0, 1]), vec![u32::MAX - 1, u32::MAX]);
}

#[test]
fn gb_the_largest_value() {
    let table = DescriptorTable::new();
    let values = [0, 1, u32::MAX - 1, u32::MAX, u32::MAX];
    let sequence = sealed(&values);
    assert_eq!(sequence.get_values(&table), values);
    assert_eq!(collected(&sequence, &table), values);
}

#[test]
fn random_distances_of_every_width() {
    let table = DescriptorTable::new();
    let mut rng = rand::thread_rng();
    for _ in 0..200 {
        let count = rng.gen_range(0..300usize);
        let mut values = Vec::new();
        let mut last = 0u32;
        for _ in 0..count {
            let width = rng.gen_range(0..4u32);
            let delta = rng.gen_range(0..=u32::MAX >> (8 * (3 - width))) >> rng.gen_range(0..8u32);
            match last.checked_add(delta) {
                Some(next) => last = next,
                None => break,
            }
            values.push(last);
        }
        let sequence = sealed(&values);
        assert_eq!(sequence.len(), values.len());
        assert_eq!(sequence.get_values(&table), values);
        assert_eq!(collected(&sequence, &table), values);
        assert_eq!(reference_decode(sequence.byte_stream(), values.len()), values);
    }
}
