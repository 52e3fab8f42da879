use rand::Rng;
use varint_test::varint_su::{VarintSU, VarintSUFactory};
use varint_test::OrderingViolation;

/// Pushes `values` and seals the sequence.
fn sealed(values: &[u32]) -> VarintSU {
    let mut factory = VarintSUFactory::new();
    for value in values {
        factory.push_int(*value).unwrap();
    }
    factory.into_varint_su()
}

/// All values that the iterator hands out.
fn collected(sequence: &VarintSU) -> Vec<usize> {
    let mut iter = sequence.iter();
    let mut values = Vec::new();
    while let Some(value) = iter.next() {
        values.push(value);
    }
    values
}

#[test]
fn test_compressions() {
    let mut fact = VarintSUFactory::new();
    fact.push_int(200).unwrap();
    fact.push_int(17003).unwrap();

    let varint = fact.into_varint_su();

    let mut iterator = varint.iter();
    assert_eq!(iterator.next().unwrap(), 200);
    assert_eq!(iterator.next().unwrap(), 17003);
}

#[test]
fn varint_su_test_bench() {
    println!("{}", 357 & 127);
    println!("{}", 4 << 2);
}

#[test]
fn two_values_byte_by_byte() {
    let sequence = sealed(&[200, 17003]);
    assert_eq!(sequence.len(), 2);
    // 199 = 71 + 128 * (0 + 1); 16802 = 34 + 128 * (2 + 128 * (0 + 1) + 1)
    assert_eq!(sequence.bytes(), &[128 + 71, 0, 128 + 34, 128 + 2, 0]);
    assert_eq!(collected(&sequence), vec![200, 17003]);
    let mut iter = sequence.iter();
    assert_eq!(iter.next(), Some(200));
    assert_eq!(iter.next(), Some(17003));
    assert_eq!(iter.next(), None);
    assert_eq!(iter.next(), None);
    // a new iterator starts over
    assert_eq!(sequence.iter().next(), Some(200));
}

#[test]
fn su_empty_and_single() {
    let empty = sealed(&[]);
    assert_eq!(empty.len(), 0);
    assert!(empty.bytes().is_empty());
    assert_eq!(empty.iter().next(), None);

    let single = sealed(&[1]);
    assert_eq!(single.len(), 1);
    assert_eq!(single.bytes(), &[0]);
    assert_eq!(collected(&single), vec![1]);
}

#[test]
fn su_width_boundaries() {
    // the gap is the value less one, for a first value
    let cases: [(u32, &[u8]); 11] = [
        (1, &[0]),
        (128, &[127]),
        (129, &[128, 0]),
        (130, &[129, 0]),
        (16512, &[255, 127]),
        (16513, &[128, 128, 0]),
        (2113664, &[255, 255, 127]),
        (2113665, &[128, 128, 128, 0]),
        (270549120, &[255, 255, 255, 127]),
        (270549121, &[128, 128, 128, 128, 0]),
        (u32::MAX, &[254, 254, 254, 254, 14]),
    ];
    for (value, bytes) in cases {
        let sequence = sealed(&[value]);
        assert_eq!(sequence.bytes(), bytes);
        assert_eq!(collected(&sequence), vec![value as usize]);
    }
}

#[test]
fn round_trips() {
    let steps: [u32; 9] = [1, 128, 129, 2, 16512, 16513, 2113665, 270549121, 77];
    for count in 0..40usize {
        for shift in 0..steps.len() {
            let mut values = Vec::new();
            let mut last = 0u32;
            for i in 0..count {
                match last.checked_add(steps[(i + shift) % steps.len()]) {
                    Some(next) => last = next,
                    None => break,
                }
                values.push(last);
            }
            let sequence = sealed(&values);
            assert_eq!(sequence.len(), values.len());
            let expected: Vec<usize> = values.iter().map(|value| *value as usize).collect();
            assert_eq!(collected(&sequence), expected);
        }
    }
}

#[test]
fn su_the_largest_value() {
    let sequence = sealed(&[u32::MAX - 1, u32::MAX]);
    assert_eq!(sequence.bytes(), &[253, 254, 254, 254, 14, 0]);
    assert_eq!(collected(&sequence), vec![u32::MAX as usize - 1, u32::MAX as usize]);
}

#[test]
fn su_a_value_below_the_top_is_refused() {
    let mut factory = VarintSUFactory::new();
    assert_eq!(factory.push_int(5), Ok(()));
    assert_eq!(factory.push_int(3), Err(OrderingViolation { top: 5, value: 3 }));
    assert_eq!(factory.push_if_not_on_top(4), Err(OrderingViolation { top: 5, value: 4 }));
    assert_eq!(factory.vec(), &[4]);
    assert_eq!(factory.push_int(6), Ok(()));
    let sequence = factory.into_varint_su();
    assert_eq!(sequence.len(), 2);
    assert_eq!(collected(&sequence), vec![5, 6]);
}

#[test]
fn a_repeat_is_passed_over() {
    let mut once = VarintSUFactory::new();
    once.push_if_not_on_top(9).unwrap();
    let once = once.into_varint_su();

    let mut twice = VarintSUFactory::new();
    twice.push_if_not_on_top(9).unwrap();
    assert_eq!(twice.push_if_not_on_top(9), Ok(()));
    assert_eq!(twice.push_int(9), Ok(()));
    let twice = twice.into_varint_su();

    assert_eq!(twice.len(), 1);
    assert_eq!(twice.len(), once.len());
    assert_eq!(twice.bytes(), once.bytes());
    assert_eq!(collected(&twice), vec![9]);

    // zero is what a new factory has on top
    let mut fresh = VarintSUFactory::new();
    assert_eq!(fresh.push_int(0), Ok(()));
    assert_eq!(fresh.push_if_not_on_top(0), Ok(()));
    assert_eq!(fresh.into_varint_su().len(), 0);
}

#[test]
fn su_the_factory_is_new_after_it_hands_over() {
    let mut factory = VarintSUFactory::new();
    factory.push_int(4).unwrap();
    factory.push_int(8).unwrap();
    let first = factory.into_varint_su();
    assert_eq!(collected(&first), vec![4, 8]);

    let second = factory.into_varint_su();
    assert_eq!(second.len(), 0);
    assert!(second.bytes().is_empty());
    assert!(factory.vec().is_empty());

    factory.push_int(3).unwrap();
    let third = factory.into_varint_su();
    assert_eq!(third.bytes(), &[2]);
    assert_eq!(collected(&third), vec![3]);
}

#[test]
fn random_gaps_of_every_length() {
    let mut rng = rand::thread_rng();
    for _ in 0..200 {
        let count = rng.gen_range(0..300usize);
        let mut values = Vec::new();
        let mut last = 0u32;
        for _ in 0..count {
            let bits = rng.gen_range(1..=32u32);
            let step = (rng.gen_range(0..=u32::MAX) >> (32 - bits)).max(1);
            match last.checked_add(step) {
                Some(next) => last = next,
                None => break,
            }
            values.push(last);
        }
        let sequence = sealed(&values);
        assert_eq!(sequence.len(), values.len());
        let expected: Vec<usize> = values.iter().map(|value| *value as usize).collect();
        assert_eq!(collected(&sequence), expected);
    }
}
