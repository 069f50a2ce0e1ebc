//! Tests for the live Pauli tracker.

use mbqc_scheduling::tracker::BufferedVector;
use mbqc_scheduling::tracker::Live;
use mbqc_scheduling::tracker::MissingStack;
use mbqc_scheduling::tracker::PauliTuple;
use mbqc_scheduling::tracker::PauliVec;
use mbqc_scheduling::tracker::Vector;

#[test]
fn new_qubit_and_measure() {
    let mut tracker = Live::init(1);
    tracker.track_x(0);
    assert_eq!(tracker.new_qubit(0), Some(PauliTuple::pauli_x()));
    assert_eq!(tracker.new_qubit(1), None);
    tracker.track_y(0);
    assert_eq!(
        tracker.as_ref().n,
        vec![PauliTuple::pauli_y(), PauliTuple::identity()]
    );
    assert_eq!(tracker.measure(0), Ok(PauliTuple::pauli_y()));
    assert_eq!(tracker.new_qubit(3), None);
}

#[test]
fn tracking_adds_modulo_two() {
    let mut tracker = Live::init(2);
    tracker.track_x(0);
    tracker.track_x(0);
    assert_eq!(tracker.measure(0), Ok(PauliTuple::identity()));
    tracker.track_z(1);
    tracker.track_x(1);
    assert_eq!(tracker.measure(1), Ok(PauliTuple::pauli_y()));
    // a qubit the tracker does not hold is ignored
    tracker.track_x(9);
    assert_eq!(tracker.as_ref().len(), 2);
    assert_eq!(tracker.measure(9), Err(MissingStack { bit: 9 }));
}

#[test]
fn hadamard_and_phase() {
    let mut tracker = Live::init(1);
    tracker.track_x(0);
    tracker.h(0);
    assert_eq!(tracker.measure(0), Ok(PauliTuple::pauli_z()));
    tracker.h(0);
    tracker.s(0);
    assert_eq!(tracker.measure(0), Ok(PauliTuple::pauli_y()));
}

#[test]
fn controlled_gates_spread_components() {
    let mut tracker = Live::init(2);
    tracker.track_x(0);
    tracker.cx(0, 1);
    assert_eq!(tracker.measure(0), Ok(PauliTuple::pauli_x()));
    assert_eq!(tracker.measure(1), Ok(PauliTuple::pauli_x()));
    let mut tracker2 = Live::init(2);
    tracker2.track_x(0);
    tracker2.cz(0, 1);
    assert_eq!(tracker2.measure(0), Ok(PauliTuple::pauli_x()));
    assert_eq!(tracker2.measure(1), Ok(PauliTuple::pauli_z()));
}

#[test]
fn pauli_string_tracks_each_qubit() {
    let mut tracker = Live::init(3);
    tracker.track_pauli_string(vec![
        (0, PauliTuple::pauli_x()),
        (2, PauliTuple::pauli_z()),
        (7, PauliTuple::pauli_y()),
    ]);
    assert_eq!(tracker.measure(0), Ok(PauliTuple::pauli_x()));
    assert_eq!(tracker.measure(1), Ok(PauliTuple::identity()));
    assert_eq!(tracker.measure(2), Ok(PauliTuple::pauli_z()));
}

#[test]
fn buffered_vector_buffers_gaps() {
    let mut v = BufferedVector::new();
    assert!(v.is_empty());
    assert_eq!(v.insert(0, PauliTuple::pauli_x()), None);
    assert_eq!(v.insert(0, PauliTuple::pauli_z()), Some(PauliTuple::pauli_x()));
    assert_eq!(v.insert(3, PauliTuple::pauli_y()), None);
    assert_eq!(v.len(), 4);
    assert_eq!(v.get(1), Some(&PauliTuple::identity()));
    assert_eq!(v.get(3), Some(&PauliTuple::pauli_y()));
    assert_eq!(v.get(4), None);
    assert_eq!(v.remove(3), Some(PauliTuple::pauli_y()));
    assert_eq!(v.remove(5), None);
    assert_eq!(v.len(), 3);
    let wrapped = BufferedVector::wrap(vec![PauliTuple::pauli_x()]);
    assert_eq!(wrapped.len(), 1);
    let roomy = BufferedVector::with_capacity(16);
    assert!(roomy.is_empty());
    let mut released = Live::init(1);
    released.track_z(0);
    assert_eq!(released.into().n, vec![PauliTuple::pauli_z()]);
}

#[test]
fn vector_inserts_and_removes_at_the_end() {
    let pauli = PauliVec::zeros(2);
    let mut storage = Vector::init(1);
    assert_eq!(storage.insert_pauli(0, pauli.clone()), Some(PauliVec::new()));
    assert_eq!(storage.insert_pauli(1, pauli.clone()), None);
    assert_eq!(storage.len(), 2);
    assert!(!storage.is_empty());
    assert_eq!(storage.get(0), Some(&pauli));
    assert_eq!(storage.get(2), None);
    assert_eq!(storage.remove_pauli(1), Some(pauli));
    assert_eq!(storage.remove_pauli(1), None);
    assert_eq!(storage.len(), 1);
}
