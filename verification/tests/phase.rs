use constraint_hamiltonian::phase::{csv_header, sample_every};

#[test]
fn test_sample() {
    let times = vec![0.0_f64, 0.01, 0.02];
    let sampled = sample_every(&times, 2);
    assert_eq!(sampled.len(), 2); // indices 0 and 2
    assert_eq!(sampled, vec![0.0, 0.02]);
}

#[test]
fn test_sample_every_index_multiples() {
    let items: Vec<u32> = (0..10).collect();
    assert_eq!(sample_every(&items, 3), vec![0, 3, 6, 9]);
    assert_eq!(sample_every(&items, 1), items);
    assert_eq!(sample_every(&items, 10), vec![0]);
    assert_eq!(sample_every(&items, usize::MAX), vec![0]);
    let empty: Vec<u32> = vec![];
    assert!(sample_every(&empty, 0).is_empty());
    assert!(sample_every(&empty, 4).is_empty());
}

#[test]
fn test_csv_header() {
    assert_eq!(csv_header(1), "time,q0,p0,energy\n");
    assert_eq!(csv_header(0), "time,energy\n");
    assert_eq!(csv_header(2), "time,q0,q1,p0,p1,energy\n");
    let h = csv_header(12);
    assert!(h.starts_with("time,q0,q1,q2,q3,q4,q5,q6,q7,q8,q9,q10,q11,p0,"));
    assert!(h.ends_with(",p11,energy\n"));
}
