//! The in-memory store: one owned copy of the accumulator parameters and
//! state, and the member associations as a list of (value, nonce) pairs
//! with each value bound at most once.

use vstd::prelude::*;
use num_bigint::BigUint;

use crate::bigint::{big_value, big_clone};
use crate::bytes::{bytes_eq, bytes_of};
use crate::store::{Storer, unique_keys, has_member_key, member_key_index};

verus! {

/// The associations a pair list denotes: each entry's value and nonce as
/// byte strings.
pub open spec fn members_view(v: Seq<(Vec<u8>, Vec<u8>)>) -> Seq<(Seq<u8>, Seq<u8>)> {
    v.map_values(|p: (Vec<u8>, Vec<u8>)| (p.0@, p.1@))
}

/// An in-memory accumulator store.
pub struct MemStore {
    generator: BigUint,
    members: Vec<(Vec<u8>, Vec<u8>)>,
    modulo: BigUint,
    state: BigUint,
}

impl MemStore {
    /// A store holding exactly the given parameters, members and state.
    pub fn new(
        generator: BigUint,
        members: Vec<(Vec<u8>, Vec<u8>)>,
        modulo: BigUint,
        state: BigUint,
    ) -> (r: Self)
        ensures
            r.generator() == big_value(generator),
            r.members() == members_view(members@),
            r.modulus() == big_value(modulo),
            r.state() == big_value(state),
            r.wf() == unique_keys(members_view(members@)),
    {
        MemStore { generator, members, modulo, state }
    }
}

impl Storer for MemStore {
    closed spec fn generator(&self) -> nat {
        big_value(self.generator)
    }

    closed spec fn modulus(&self) -> nat {
        big_value(self.modulo)
    }

    closed spec fn state(&self) -> nat {
        big_value(self.state)
    }

    closed spec fn members(&self) -> Seq<(Seq<u8>, Seq<u8>)> {
        members_view(self.members@)
    }

    closed spec fn wf(&self) -> bool {
        unique_keys(members_view(self.members@))
    }

    proof fn wf_implies_unique(&self) {
    }

    fn get_generator(&self) -> (r: BigUint) {
        big_clone(&self.generator)
    }

    fn get_modulus(&self) -> (r: BigUint) {
        big_clone(&self.modulo)
    }

    fn get_state(&self) -> (r: BigUint) {
        big_clone(&self.state)
    }

    fn set_state(&mut self, new_state: &BigUint) {
        self.state = big_clone(new_state);
    }

    fn members_count(&self) -> (n: usize) {
        self.members.len()
    }

    fn member_at(&self, i: usize) -> (kv: (Vec<u8>, Vec<u8>)) {
        let entry = &self.members[i];
        (bytes_of(entry.0.as_slice()), bytes_of(entry.1.as_slice()))
    }

    fn insert_member(&mut self, value: &[u8], nonce: &[u8]) {
        let n = self.members.len();
        let mut i: usize = 0;
        while i < n
            invariant
                *self == *old(self),
                old(self).wf(),
                n == self.members@.len(),
                i <= n,
                forall|k: int| 0 <= k < i ==> members_view(self.members@)[k].0 != value@,
            decreases n - i,
        {
            if bytes_eq(self.members[i].0.as_slice(), value) {
                let entry = (bytes_of(value), bytes_of(nonce));
                let ghost before = self.members@;
                self.members.remove(i);
                self.members.insert(i, entry);
                proof {
                    let ov = members_view(before);
                    assert(self.members@ =~= before.update(i as int, entry));
                    assert(has_member_key(ov, value@)) by {
                        assert(ov[i as int].0 == value@);
                    }
                    assert(unique_keys(ov));
                    let k = member_key_index(ov, value@);
                    assert(0 <= k < ov.len() && ov[k].0 == value@);
                    assert(k == i as int) by {
                        if k < i as int {
                            assert(ov[k].0 != ov[i as int].0);
                        }
                        if k > i as int {
                            assert(ov[i as int].0 != ov[k].0);
                        }
                    }
                    assert(members_view(self.members@) =~= ov.update(i as int, (value@, nonce@)));
                    assert(unique_keys(members_view(self.members@))) by {
                        let nv = members_view(self.members@);
                        assert forall|x: int, y: int|
                            0 <= x < y < nv.len() implies nv[x].0 != nv[y].0 by {
                            assert(nv[x].0 == ov[x].0 && nv[y].0 == ov[y].0);
                            assert(ov[x].0 != ov[y].0);
                        }
                    }
                }
                return;
            }
            i = i + 1;
        }
        let entry = (bytes_of(value), bytes_of(nonce));
        let ghost before = self.members@;
        self.members.push(entry);
        proof {
            let ov = members_view(before);
            assert(!has_member_key(ov, value@)) by {
                if has_member_key(ov, value@) {
                    let k = choose|k: int| 0 <= k < ov.len() && ov[k].0 == value@;
                    assert(ov[k].0 != value@);
                }
            }
            assert(members_view(self.members@) =~= ov.push((value@, nonce@)));
            assert(unique_keys(ov));
            assert(unique_keys(members_view(self.members@))) by {
                let nv = members_view(self.members@);
                assert forall|x: int, y: int| 0 <= x < y < nv.len() implies nv[x].0 != nv[y].0 by {
                    if y < ov.len() {
                        assert(nv[x].0 == ov[x].0 && nv[y].0 == ov[y].0);
                        assert(ov[x].0 != ov[y].0);
                    } else {
                        assert(nv[y].0 == value@ && nv[x].0 == ov[x].0);
                        assert(ov[x].0 != value@);
                    }
                }
            }
        }
    }
}

} // verus!
