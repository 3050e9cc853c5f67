use van_world::checkpoint::{decode, encode, LoadError, Params};

fn bits(data: &[f32]) -> Vec<u32> {
    data.iter().map(|v| v.to_bits()).collect()
}

fn sample() -> Params<u32> {
    let mut params = Params::new();
    params.insert("a.weight".into(), bits(&[1.0, -2.5, 3.25]));
    params.insert("b.bias".into(), bits(&[0.0; 7]));
    params
}

#[test]
fn roundtrip() {
    let params = sample();
    let bytes = encode(&params, 1234);
    let (back, step) = decode(&bytes).unwrap();
    assert_eq!(step, 1234);
    assert_eq!(params.entries, back.entries);
}

/// The scalars of a checkpoint, behind its parameters.
fn scalars(low: [u8; 4], high: [u8; 4]) -> Vec<u8> {
    let mut bytes = vec![1, 0, 0, 0, 4, 0, 0, 0];
    bytes.extend(b"step");
    bytes.extend([2, 0, 0, 0]);
    bytes.extend(low);
    bytes.extend(high);
    bytes
}

#[test]
fn bytes_of_a_checkpoint() {
    let mut params = Params::new();
    params.insert("é".into(), vec![0x0403_0201]);
    params.insert("a".into(), vec![]);
    let bytes = encode(&params, 0x0102_0304_0506_0708);
    let mut wanted = vec![2, 0, 0, 0];
    wanted.extend([1, 0, 0, 0, b'a', 0, 0, 0, 0]);
    wanted.extend([2, 0, 0, 0, 0xc3, 0xa9, 1, 0, 0, 0, 1, 2, 3, 4]);
    wanted.extend(scalars([8, 7, 6, 5], [4, 3, 2, 1]));
    assert_eq!(bytes, wanted);
    let empty: Params<u32> = Params::new();
    let mut wanted = vec![0; 4];
    wanted.extend(scalars([9, 0, 0, 0], [0; 4]));
    assert_eq!(encode(&empty, 9), wanted);
}

#[test]
fn every_step_is_kept() {
    for step in [0, 1, u32::MAX as u64, 1 << 32, u64::MAX] {
        assert_eq!(decode(&encode(&sample(), step)).unwrap().1, step);
    }
}

#[test]
fn names_are_in_order_and_inserting_replaces() {
    let mut p: Params<u32> = Params::new();
    for (i, name) in ["m", "b", "z", "mm", "", "B", "ж", "m"].iter().enumerate() {
        p.insert(name.to_string(), vec![i as u32]);
    }
    let names: Vec<&str> = p.entries.iter().map(|e| e.0.as_str()).collect();
    assert_eq!(names, vec!["", "B", "b", "m", "mm", "z", "ж"]);
    let mut sorted = names.clone();
    sorted.sort();
    assert_eq!(names, sorted);
    assert_eq!(p.get("m"), Some(&vec![7]));
    assert_eq!(p.get("mm"), Some(&vec![3]));
    assert_eq!(p.get("n"), None);
    assert_eq!(p.get("zz"), None);
}

#[test]
fn short_files_end_too_early() {
    let bytes = encode(&sample(), 7);
    for n in 0..bytes.len() {
        assert_eq!(decode(&bytes[..n]).err(), Some(LoadError::UnexpectedEof));
    }
    assert!(decode(&bytes).is_ok());
}

#[test]
fn more_bytes_do_not_matter() {
    let mut bytes = encode(&sample(), 7);
    bytes.extend([1, 2, 3]);
    let (back, step) = decode(&bytes).unwrap();
    assert_eq!((back.entries, step), (sample().entries, 7));
}

#[test]
fn a_step_counter_is_wanted() {
    // No scalars, a scalar of another name, and a counter of one word.
    let empty = [0u8; 8];
    assert_eq!(decode(&empty).err(), Some(LoadError::NoStep));
    let mut bytes = encode(&sample(), 7);
    let at = bytes.windows(4).position(|w| w == b"step").unwrap();
    bytes[at] = b'S';
    assert_eq!(decode(&bytes).err(), Some(LoadError::NoStep));
    let mut bytes = vec![0, 0, 0, 0, 1, 0, 0, 0, 4, 0, 0, 0];
    bytes.extend(b"step");
    bytes.extend([1, 0, 0, 0, 5, 0, 0, 0]);
    assert_eq!(decode(&bytes).err(), Some(LoadError::NoStep));
}

#[test]
fn names_must_be_text() {
    let mut bytes = encode(&sample(), 7);
    // The first byte of the first name.
    bytes[8] = 0xff;
    assert_eq!(decode(&bytes).err(), Some(LoadError::BadName));
    // The data of the parameter is looked at first.
    assert_eq!(decode(&bytes[..14]).err(), Some(LoadError::UnexpectedEof));
}

#[test]
fn of_two_parameters_of_one_name_the_later_counts() {
    let mut bytes = vec![2, 0, 0, 0];
    bytes.extend([1, 0, 0, 0, b'a', 1, 0, 0, 0, 5, 0, 0, 0]);
    bytes.extend([1, 0, 0, 0, b'a', 1, 0, 0, 0, 6, 0, 0, 0]);
    bytes.extend(scalars([0; 4], [0; 4]));
    let (p, _) = decode(&bytes).unwrap();
    assert_eq!(p.entries, vec![("a".to_string(), vec![6])]);
}

#[test]
fn parameters_are_mixed_by_name() {
    let mut ema: Params<i32> = Params::new();
    ema.insert("a".into(), vec![1, 2]);
    ema.insert("b".into(), vec![3]);
    let mut now: Params<i32> = Params::new();
    now.insert("b".into(), vec![30, 40]);
    now.insert("a".into(), vec![10]);
    now.insert("c".into(), vec![5]);
    ema.mix_with(&now, &|e, p| 2 * e + p);
    let wanted = vec![("a".to_string(), vec![12, 2]), ("b".to_string(), vec![36])];
    assert_eq!(ema.entries, wanted);
}
