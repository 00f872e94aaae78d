use walign::model::Model;

fn bits(x: f64) -> u64 {
    x.to_bits()
}

#[test]
fn uniform_fills_every_entry() {
    let m = Model::uniform(2, 3, bits(0.25));
    assert_eq!(m.f_size, 2);
    assert_eq!(m.e_size, 3);
    assert_eq!(m.t_fe.len(), 6);
    assert_eq!(m.t_0e.len(), 3);
    assert!(m.t_fe.iter().all(|&v| v == bits(0.25)));
    assert!(m.t_0e.iter().all(|&v| v == bits(0.25)));
}

#[test]
fn save_writes_sizes_then_tables_little_endian() {
    let m = Model {
        f_size: 1,
        e_size: 2,
        t_fe: vec![bits(0.5), bits(0.25)],
        t_0e: vec![bits(0.125), bits(1.0)],
    };
    let saved = m.save();
    let mut expected: Vec<u8> = Vec::new();
    expected.extend_from_slice(&1u32.to_le_bytes());
    expected.extend_from_slice(&2u32.to_le_bytes());
    for v in [0.5f64, 0.25, 0.125, 1.0] {
        expected.extend_from_slice(&v.to_le_bytes());
    }
    assert_eq!(saved, expected);
}

#[test]
fn save_load_round_trip_is_bit_exact() {
    let m = Model {
        f_size: 2,
        e_size: 2,
        t_fe: vec![bits(0.1), bits(0.9), bits(0.3), bits(0.7)],
        t_0e: vec![bits(0.2), bits(0.8)],
    };
    let saved = m.save();
    let loaded = Model::load(saved.as_slice()).expect("saved model must load");
    assert_eq!(loaded.f_size, m.f_size);
    assert_eq!(loaded.e_size, m.e_size);
    assert_eq!(loaded.t_fe, m.t_fe);
    assert_eq!(loaded.t_0e, m.t_0e);
    // Re-saving reproduces byte-identical output.
    assert_eq!(loaded.save(), saved);
}

#[test]
fn load_rejects_short_or_mismatched_data() {
    assert!(Model::load(&[]).is_err());
    assert!(Model::load(&[1, 0, 0, 0]).is_err());
    // Header promises 1x1 tables (16 bytes of entries) but none follow.
    let mut b: Vec<u8> = Vec::new();
    b.extend_from_slice(&1u32.to_le_bytes());
    b.extend_from_slice(&1u32.to_le_bytes());
    assert!(Model::load(b.as_slice()).is_err());
    // One trailing byte too many.
    let m = Model { f_size: 1, e_size: 1, t_fe: vec![bits(0.5)], t_0e: vec![bits(0.5)] };
    let mut saved = m.save();
    saved.push(0);
    assert!(Model::load(saved.as_slice()).is_err());
    let err = Model::load(&[]).expect_err("empty data");
    assert_eq!(err.message, "Invalid model data");
}

#[test]
fn load_of_empty_tables() {
    let m = Model { f_size: 0, e_size: 0, t_fe: Vec::new(), t_0e: Vec::new() };
    let saved = m.save();
    assert_eq!(saved.len(), 8);
    let loaded = Model::load(saved.as_slice()).expect("empty model must load");
    assert_eq!(loaded.f_size, 0);
    assert_eq!(loaded.e_size, 0);
}
