//! A minimal live Pauli tracker: one running frame that adds up the tracked
//! Pauli corrections per qubit.  The scheduler consumes the partial order
//! that such tracking induces; the tracker itself is independent of it.

use vstd::prelude::*;

verus! {

/// A Pauli operator, by its X and Z components.
#[derive(Clone, Copy, Debug, PartialEq, Eq, Structural)]
pub struct PauliTuple {
    /// The X component.
    pub x: bool,
    /// The Z component.
    pub z: bool,
}

impl PauliTuple {
    /// The identity operator.
    pub fn identity() -> (r: PauliTuple)
        ensures
            r == (PauliTuple { x: false, z: false }),
    {
        PauliTuple { x: false, z: false }
    }

    /// The X operator.
    pub fn pauli_x() -> (r: PauliTuple)
        ensures
            r == (PauliTuple { x: true, z: false }),
    {
        PauliTuple { x: true, z: false }
    }

    /// The Y operator.
    pub fn pauli_y() -> (r: PauliTuple)
        ensures
            r == (PauliTuple { x: true, z: true }),
    {
        PauliTuple { x: true, z: true }
    }

    /// The Z operator.
    pub fn pauli_z() -> (r: PauliTuple)
        ensures
            r == (PauliTuple { x: false, z: true }),
    {
        PauliTuple { x: false, z: true }
    }

    /// Adds `other` onto this operator, component-wise modulo two.
    pub fn add(&mut self, other: PauliTuple)
        ensures
            final(self).x == (old(self).x != other.x),
            final(self).z == (old(self).z != other.z),
    {
        self.x = self.x != other.x;
        self.z = self.z != other.z;
    }
}

/// A newtype wrapper around a vector that buffers missing entries: inserting
/// past the end fills the gap with identity operators.
#[derive(Debug)]
pub struct BufferedVector {
    /// The inner vector of our newtype.
    pub n: Vec<PauliTuple>,
}

impl BufferedVector {
    /// Creates a new empty buffered vector.
    pub fn new() -> (r: BufferedVector)
        ensures
            r.n@.len() == 0,
    {
        BufferedVector { n: Vec::new() }
    }

    /// Creates a new empty buffered vector with the given capacity.
    pub fn with_capacity(capacity: usize) -> (r: BufferedVector)
        ensures
            r.n@.len() == 0,
    {
        BufferedVector { n: Vec::with_capacity(capacity) }
    }

    /// Wraps a vector into a buffered vector.
    pub fn wrap(vec: Vec<PauliTuple>) -> (r: BufferedVector)
        ensures
            r.n@ == vec@,
    {
        BufferedVector { n: vec }
    }

    /// The number of stored operators.
    pub fn len(&self) -> (r: usize)
        ensures
            r == self.n@.len(),
    {
        self.n.len()
    }

    /// Whether nothing is stored.
    pub fn is_empty(&self) -> (r: bool)
        ensures
            r == (self.n@.len() == 0),
    {
        self.n.len() == 0
    }

    /// The operator at `key`, if it exists.
    pub fn get(&self, key: usize) -> (r: Option<&PauliTuple>)
        ensures
            key < self.n@.len() ==> r == Some(&self.n@[key as int]),
            key >= self.n@.len() ==> r is None,
    {
        if key < self.n.len() {
            Some(&self.n[key])
        } else {
            None
        }
    }

    /// Overwrites the operator at `key`; below the length it returns the
    /// previous operator, at the length it appends, and past the length it
    /// fills the gap with identities first.
    pub fn insert(&mut self, key: usize, value: PauliTuple) -> (r: Option<PauliTuple>)
        requires
            key < usize::MAX,
        ensures
            key < old(self).n@.len() ==> r == Some(old(self).n@[key as int]) && final(self).n@
                == old(self).n@.update(key as int, value),
            key >= old(self).n@.len() ==> r is None && final(self).n@.len() == key + 1 && (forall|
                q: int,
            |
                0 <= q < key + 1 ==> final(self).n@[q] == (if q < old(self).n@.len() {
                    old(self).n@[q]
                } else if q == key {
                    value
                } else {
                    PauliTuple { x: false, z: false }
                })),
    {
        let len = self.n.len();
        if key < len {
            let previous = self.n[key];
            self.n.set(key, value);
            Some(previous)
        } else {
            let mut q = len;
            while q < key
                invariant
                    len <= q <= key,
                    self.n@.len() == q,
                    forall|w: int| 0 <= w < len ==> self.n@[w] == old(self).n@[w],
                    forall|w: int|
                        len <= w < q ==> self.n@[w] == (PauliTuple { x: false, z: false }),
                decreases key - q,
            {
                self.n.push(PauliTuple { x: false, z: false });
                q += 1;
            }
            self.n.push(value);
            None
        }
    }

    /// Removes and returns the last operator when `key` names it; removing
    /// anywhere else is not supported by this storage, and past the end
    /// there is nothing to remove.
    pub fn remove(&mut self, key: usize) -> (r: Option<PauliTuple>)
        requires
            old(self).n@.len() > 0 ==> key >= old(self).n@.len() - 1,
        ensures
            old(self).n@.len() == 0 ==> r is None && final(self).n@ == old(self).n@,
            old(self).n@.len() > 0 && key == old(self).n@.len() - 1 ==> r == Some(
                old(self).n@.last(),
            ) && final(self).n@ == old(self).n@.drop_last(),
            old(self).n@.len() > 0 && key > old(self).n@.len() - 1 ==> r is None && final(self).n@
                == old(self).n@,
    {
        let len = self.n.len();
        if len == 0 {
            return None;
        }
        if key == len - 1 {
            self.n.pop()
        } else {
            None
        }
    }
}

/// The error of measuring a qubit that the tracker does not hold.
#[derive(Clone, Copy, Debug, PartialEq, Eq, Structural)]
pub struct MissingStack {
    /// The missing qubit.
    pub bit: usize,
}

/// A list of Pauli operators to track, per qubit.
pub type PauliString = Vec<(usize, PauliTuple)>;

/// The live tracker: one frame that adds up the tracked Paulis.
#[derive(Debug)]
pub struct Live {
    /// The per-qubit frame.
    pub storage: BufferedVector,
}

impl Live {
    /// A tracker over `num_bits` qubits, all starting at identity.
    pub fn init(num_bits: usize) -> (r: Live)
        ensures
            r.storage.n@.len() == num_bits,
            forall|q: int|
                0 <= q < num_bits ==> r.storage.n@[q] == (PauliTuple { x: false, z: false }),
    {
        let mut n: Vec<PauliTuple> = Vec::new();
        let mut i: usize = 0;
        while i < num_bits
            invariant
                i <= num_bits,
                n@.len() == i,
                forall|q: int| 0 <= q < i ==> n@[q] == (PauliTuple { x: false, z: false }),
            decreases num_bits - i,
        {
            n.push(PauliTuple { x: false, z: false });
            i += 1;
        }
        Live { storage: BufferedVector { n } }
    }

    /// Releases the inner storage.
    pub fn into(self) -> (r: BufferedVector)
        ensures
            r.n@ == self.storage.n@,
    {
        self.storage
    }

    /// A read-only view of the inner storage.
    pub fn as_ref(&self) -> (r: &BufferedVector)
        ensures
            r == &self.storage,
    {
        &self.storage
    }

    /// The operator at `bit`, if the tracker holds that qubit.
    pub fn get(&self, bit: usize) -> (r: Option<&PauliTuple>)
        ensures
            bit < self.storage.n@.len() ==> r == Some(&self.storage.n@[bit as int]),
            bit >= self.storage.n@.len() ==> r is None,
    {
        self.storage.get(bit)
    }

    /// A mutable reference to the operator at `bit`, if the tracker holds
    /// that qubit.
    pub fn get_mut(&mut self, bit: usize) -> (r: Option<&mut PauliTuple>)
        ensures
            bit < old(self).storage.n@.len() ==> (r matches Some(p) && *p == old(
                self,
            ).storage.n@[bit as int] && final(self).storage.n@ == old(self).storage.n@.update(
                bit as int,
                *final(p),
            )),
            bit >= old(self).storage.n@.len() ==> r is None && final(self).storage.n@ == old(
                self,
            ).storage.n@,
    {
        if bit < self.storage.n.len() {
            Some(&mut self.storage.n[bit])
        } else {
            None
        }
    }

    /// Makes `bit` a fresh qubit: its frame becomes identity, and the
    /// previous frame is handed back when the qubit already existed.
    pub fn new_qubit(&mut self, bit: usize) -> (r: Option<PauliTuple>)
        requires
            bit < usize::MAX,
        ensures
            bit < old(self).storage.n@.len() ==> r == Some(old(self).storage.n@[bit as int])
                && final(self).storage.n@ == old(self).storage.n@.update(
                bit as int,
                PauliTuple { x: false, z: false },
            ),
            bit >= old(self).storage.n@.len() ==> r is None && final(self).storage.n@.len() == bit
                + 1,
    {
        self.storage.insert(bit, PauliTuple { x: false, z: false })
    }

    /// Adds `pauli` onto the frame of `bit`; a qubit the tracker does not
    /// hold is ignored.
    pub fn track_pauli(&mut self, bit: usize, pauli: PauliTuple)
        ensures
            bit < old(self).storage.n@.len() ==> final(self).storage.n@ == old(
                self,
            ).storage.n@.update(
                bit as int,
                PauliTuple {
                    x: old(self).storage.n@[bit as int].x != pauli.x,
                    z: old(self).storage.n@[bit as int].z != pauli.z,
                },
            ),
            bit >= old(self).storage.n@.len() ==> final(self).storage.n@ == old(self).storage.n@,
    {
        if bit < self.storage.n.len() {
            let p = self.storage.n[bit];
            self.storage.n.set(
                bit,
                PauliTuple { x: p.x != pauli.x, z: p.z != pauli.z },
            );
            proof {
                assert(final(self).storage.n@ =~= old(self).storage.n@.update(
                    bit as int,
                    PauliTuple {
                        x: old(self).storage.n@[bit as int].x != pauli.x,
                        z: old(self).storage.n@[bit as int].z != pauli.z,
                    },
                ));
            }
        }
    }

    /// Adds an X onto the frame of `bit`.
    pub fn track_x(&mut self, bit: usize)
        ensures
            bit < old(self).storage.n@.len() ==> final(self).storage.n@ == old(
                self,
            ).storage.n@.update(
                bit as int,
                PauliTuple {
                    x: !old(self).storage.n@[bit as int].x,
                    z: old(self).storage.n@[bit as int].z,
                },
            ),
            bit >= old(self).storage.n@.len() ==> final(self).storage.n@ == old(self).storage.n@,
    {
        self.track_pauli(bit, PauliTuple { x: true, z: false })
    }

    /// Adds a Y onto the frame of `bit`.
    pub fn track_y(&mut self, bit: usize)
        ensures
            bit < old(self).storage.n@.len() ==> final(self).storage.n@ == old(
                self,
            ).storage.n@.update(
                bit as int,
                PauliTuple {
                    x: !old(self).storage.n@[bit as int].x,
                    z: !old(self).storage.n@[bit as int].z,
                },
            ),
            bit >= old(self).storage.n@.len() ==> final(self).storage.n@ == old(self).storage.n@,
    {
        self.track_pauli(bit, PauliTuple { x: true, z: true })
    }

    /// Adds a Z onto the frame of `bit`.
    pub fn track_z(&mut self, bit: usize)
        ensures
            bit < old(self).storage.n@.len() ==> final(self).storage.n@ == old(
                self,
            ).storage.n@.update(
                bit as int,
                PauliTuple {
                    x: old(self).storage.n@[bit as int].x,
                    z: !old(self).storage.n@[bit as int].z,
                },
            ),
            bit >= old(self).storage.n@.len() ==> final(self).storage.n@ == old(self).storage.n@,
    {
        self.track_pauli(bit, PauliTuple { x: false, z: true })
    }

    /// Tracks a whole Pauli string, qubit by qubit.
    pub fn track_pauli_string(&mut self, string: PauliString)
        ensures
            final(self).storage.n@.len() == old(self).storage.n@.len(),
    {
        let n = string.len();
        let mut i: usize = 0;
        while i < n
            invariant
                i <= n,
                n == string@.len(),
                self.storage.n@.len() == old(self).storage.n@.len(),
            decreases n - i,
        {
            let (bit, pauli) = string[i];
            self.track_pauli(bit, pauli);
            i += 1;
        }
    }

    /// A Hadamard on `bit`: swaps the X and Z components of its frame.
    pub fn h(&mut self, bit: usize)
        ensures
            bit < old(self).storage.n@.len() ==> final(self).storage.n@ == old(
                self,
            ).storage.n@.update(
                bit as int,
                PauliTuple {
                    x: old(self).storage.n@[bit as int].z,
                    z: old(self).storage.n@[bit as int].x,
                },
            ),
            bit >= old(self).storage.n@.len() ==> final(self).storage.n@ == old(self).storage.n@,
    {
        if bit < self.storage.n.len() {
            let p = self.storage.n[bit];
            self.storage.n.set(bit, PauliTuple { x: p.z, z: p.x });
        }
    }

    /// A phase gate on `bit`: adds the X component onto the Z component.
    pub fn s(&mut self, bit: usize)
        ensures
            bit < old(self).storage.n@.len() ==> final(self).storage.n@ == old(
                self,
            ).storage.n@.update(
                bit as int,
                PauliTuple {
                    x: old(self).storage.n@[bit as int].x,
                    z: old(self).storage.n@[bit as int].z != old(self).storage.n@[bit as int].x,
                },
            ),
            bit >= old(self).storage.n@.len() ==> final(self).storage.n@ == old(self).storage.n@,
    {
        if bit < self.storage.n.len() {
            let p = self.storage.n[bit];
            self.storage.n.set(bit, PauliTuple { x: p.x, z: p.z != p.x });
        }
    }

    /// A controlled-X with control `control` and target `target`: the
    /// control's X spreads to the target, the target's Z spreads back.
    pub fn cx(&mut self, control: usize, target: usize)
        requires
            control < old(self).storage.n@.len(),
            target < old(self).storage.n@.len(),
            control != target,
        ensures
            final(self).storage.n@ == old(self).storage.n@.update(
                target as int,
                PauliTuple {
                    x: old(self).storage.n@[target as int].x != old(
                        self,
                    ).storage.n@[control as int].x,
                    z: old(self).storage.n@[target as int].z,
                },
            ).update(
                control as int,
                PauliTuple {
                    x: old(self).storage.n@[control as int].x,
                    z: old(self).storage.n@[control as int].z != old(
                        self,
                    ).storage.n@[target as int].z,
                },
            ),
    {
        let c = self.storage.n[control];
        let t = self.storage.n[target];
        self.storage.n.set(target, PauliTuple { x: t.x != c.x, z: t.z });
        self.storage.n.set(control, PauliTuple { x: c.x, z: c.z != t.z });
    }

    /// A controlled-Z between `bit_a` and `bit_b`: each side's X spreads to
    /// the other's Z.
    pub fn cz(&mut self, bit_a: usize, bit_b: usize)
        requires
            bit_a < old(self).storage.n@.len(),
            bit_b < old(self).storage.n@.len(),
            bit_a != bit_b,
        ensures
            final(self).storage.n@ == old(self).storage.n@.update(
                bit_a as int,
                PauliTuple {
                    x: old(self).storage.n@[bit_a as int].x,
                    z: old(self).storage.n@[bit_a as int].z != old(
                        self,
                    ).storage.n@[bit_b as int].x,
                },
            ).update(
                bit_b as int,
                PauliTuple {
                    x: old(self).storage.n@[bit_b as int].x,
                    z: old(self).storage.n@[bit_b as int].z != old(
                        self,
                    ).storage.n@[bit_a as int].x,
                },
            ),
    {
        let a = self.storage.n[bit_a];
        let b = self.storage.n[bit_b];
        self.storage.n.set(bit_a, PauliTuple { x: a.x, z: a.z != b.x });
        self.storage.n.set(bit_b, PauliTuple { x: b.x, z: b.z != a.x });
    }

    /// The accumulated frame of `bit`, read off at measurement.
    pub fn measure(&mut self, bit: usize) -> (r: Result<PauliTuple, MissingStack>)
        ensures
            bit < old(self).storage.n@.len() ==> r == Ok::<PauliTuple, MissingStack>(
                old(self).storage.n@[bit as int],
            ),
            bit >= old(self).storage.n@.len() ==> r == Err::<PauliTuple, MissingStack>(
                MissingStack { bit },
            ),
            final(self).storage.n@ == old(self).storage.n@,
    {
        if bit < self.storage.n.len() {
            Ok(self.storage.n[bit])
        } else {
            Err(MissingStack { bit })
        }
    }
}

/// One qubit's stack of tracked corrections across frames: which frames
/// flipped its X component and which its Z component.
#[derive(Clone, Debug, PartialEq, Eq)]
pub struct PauliVec {
    /// The X flips, per frame.
    pub x: Vec<bool>,
    /// The Z flips, per frame.
    pub z: Vec<bool>,
}

impl PauliVec {
    /// An empty stack.
    pub fn new() -> (r: PauliVec)
        ensures
            r.x@.len() == 0,
            r.z@.len() == 0,
    {
        PauliVec { x: Vec::new(), z: Vec::new() }
    }

    /// A stack of `len` frames without any flip.
    pub fn zeros(len: usize) -> (r: PauliVec)
        ensures
            r.x@.len() == len,
            r.z@.len() == len,
            forall|i: int| 0 <= i < len ==> r.x@[i] == false,
            forall|i: int| 0 <= i < len ==> r.z@[i] == false,
    {
        let mut x: Vec<bool> = Vec::new();
        let mut z: Vec<bool> = Vec::new();
        let mut i: usize = 0;
        while i < len
            invariant
                i <= len,
                x@.len() == i,
                z@.len() == i,
                forall|q: int| 0 <= q < i ==> x@[q] == false,
                forall|q: int| 0 <= q < i ==> z@[q] == false,
            decreases len - i,
        {
            x.push(false);
            z.push(false);
            i += 1;
        }
        PauliVec { x, z }
    }
}

/// A per-qubit storage of correction stacks that only grows and shrinks at
/// its end, like the vector it wraps.
#[derive(Clone, Debug, PartialEq, Eq)]
pub struct Vector {
    /// The inner storage.
    pub frames: Vec<PauliVec>,
}

impl Vector {
    /// A storage of `num_qubits` empty stacks.
    pub fn init(num_qubits: usize) -> (r: Vector)
        ensures
            r.frames@.len() == num_qubits,
            forall|i: int|
                0 <= i < num_qubits ==> (#[trigger] r.frames@[i]).x@.len() == 0
                    && r.frames@[i].z@.len() == 0,
    {
        let mut frames: Vec<PauliVec> = Vec::new();
        let mut i: usize = 0;
        while i < num_qubits
            invariant
                i <= num_qubits,
                frames@.len() == i,
                forall|q: int|
                    0 <= q < i ==> (#[trigger] frames@[q]).x@.len() == 0 && frames@[q].z@.len()
                        == 0,
            decreases num_qubits - i,
        {
            frames.push(PauliVec::new());
            i += 1;
        }
        Vector { frames }
    }

    /// The number of stored stacks.
    pub fn len(&self) -> (r: usize)
        ensures
            r == self.frames@.len(),
    {
        self.frames.len()
    }

    /// Whether nothing is stored.
    pub fn is_empty(&self) -> (r: bool)
        ensures
            r == (self.frames@.len() == 0),
    {
        self.frames.len() == 0
    }

    /// The stack of `qubit`, if stored.
    pub fn get(&self, qubit: usize) -> (r: Option<&PauliVec>)
        ensures
            qubit < self.frames@.len() ==> r == Some(&self.frames@[qubit as int]),
            qubit >= self.frames@.len() ==> r is None,
    {
        if qubit < self.frames.len() {
            Some(&self.frames[qubit])
        } else {
            None
        }
    }

    /// Stores `pauli` for `bit`: below the length the previous stack is
    /// replaced and returned, at the length the stack is appended.  Storing
    /// further out is not supported: this storage only grows at its end.
    pub fn insert_pauli(&mut self, bit: usize, pauli: PauliVec) -> (r: Option<PauliVec>)
        requires
            bit <= old(self).frames@.len(),
        ensures
            bit < old(self).frames@.len() ==> r == Some(old(self).frames@[bit as int])
                && final(self).frames@ == old(self).frames@.update(bit as int, pauli),
            bit == old(self).frames@.len() ==> r is None && final(self).frames@ == old(
                self,
            ).frames@.push(pauli),
    {
        let len = self.frames.len();
        if bit < len {
            let ghost pre = self.frames@;
            let slot = &mut self.frames[bit];
            let mut taken = pauli;
            core::mem::swap(slot, &mut taken);
            proof {
                assert(self.frames@ =~= pre.update(bit as int, pauli));
            }
            Some(taken)
        } else {
            self.frames.push(pauli);
            None
        }
    }

    /// Removes and returns the last stack when `bit` names it; removing
    /// anywhere else is not supported, and past the end there is nothing to
    /// remove.
    pub fn remove_pauli(&mut self, bit: usize) -> (r: Option<PauliVec>)
        requires
            old(self).frames@.len() > 0 ==> bit >= old(self).frames@.len() - 1,
        ensures
            old(self).frames@.len() == 0 ==> r is None && final(self).frames@ == old(self).frames@,
            old(self).frames@.len() > 0 && bit == old(self).frames@.len() - 1 ==> r == Some(
                old(self).frames@.last(),
            ) && final(self).frames@ == old(self).frames@.drop_last(),
            old(self).frames@.len() > 0 && bit > old(self).frames@.len() - 1 ==> r is None
                && final(self).frames@ == old(self).frames@,
    {
        let len = self.frames.len();
        if len == 0 {
            return None;
        }
        if bit == len - 1 {
            self.frames.pop()
        } else {
            None
        }
    }
}

} // verus!
