//! The capability interface the accumulator engine requires of its
//! persistent store: the fixed generator and modulus, the single mutable
//! state value, and the list of (member value, nonce) associations with
//! insert-or-overwrite semantics. Any storage backend satisfying this
//! contract can sit under the engine.

use vstd::prelude::*;
use num_bigint::BigUint;

use crate::bigint::big_value;

verus! {

/// Each member value is bound at most once.
pub open spec fn unique_keys(ms: Seq<(Seq<u8>, Seq<u8>)>) -> bool {
    forall|i: int, j: int| 0 <= i < j < ms.len() ==> #[trigger] ms[i].0 != #[trigger] ms[j].0
}

/// Whether some entry binds the given member value.
pub open spec fn has_member_key(ms: Seq<(Seq<u8>, Seq<u8>)>, key: Seq<u8>) -> bool {
    exists|i: int| 0 <= i < ms.len() && ms[i].0 == key
}

/// The position of the entry binding the given member value.
pub open spec fn member_key_index(ms: Seq<(Seq<u8>, Seq<u8>)>, key: Seq<u8>) -> int {
    choose|i: int| 0 <= i < ms.len() && ms[i].0 == key
}

/// Recording a member: a value already bound has its nonce overwritten in
/// place; a new value is appended.
pub open spec fn insert_member_spec(
    ms: Seq<(Seq<u8>, Seq<u8>)>,
    key: Seq<u8>,
    nonce: Seq<u8>,
) -> Seq<(Seq<u8>, Seq<u8>)> {
    if has_member_key(ms, key) {
        ms.update(member_key_index(ms, key), (key, nonce))
    } else {
        ms.push((key, nonce))
    }
}

/// What the accumulator engine requires of a store. The generator and
/// modulus are fixed; the state is a single read-write value; the member
/// list supports counting, positional reads and insert-or-overwrite.
pub trait Storer: Sized {
    /// The integer the stored generator denotes.
    spec fn generator(&self) -> nat;

    /// The integer the stored modulus denotes.
    spec fn modulus(&self) -> nat;

    /// The integer the stored accumulator state denotes.
    spec fn state(&self) -> nat;

    /// The stored (member value, nonce) associations, in storage order.
    spec fn members(&self) -> Seq<(Seq<u8>, Seq<u8>)>;

    /// Well-formedness of the store: no member value is bound twice.
    spec fn wf(&self) -> bool;

    /// Every implementation's well-formedness includes unique member keys.
    proof fn wf_implies_unique(&self)
        requires
            self.wf(),
        ensures
            unique_keys(self.members()),
    ;

    fn get_generator(&self) -> (r: BigUint)
        ensures
            big_value(r) == self.generator(),
    ;

    fn get_modulus(&self) -> (r: BigUint)
        ensures
            big_value(r) == self.modulus(),
    ;

    fn get_state(&self) -> (r: BigUint)
        ensures
            big_value(r) == self.state(),
    ;

    fn set_state(&mut self, new_state: &BigUint)
        ensures
            final(self).state() == big_value(*new_state),
            final(self).generator() == old(self).generator(),
            final(self).modulus() == old(self).modulus(),
            final(self).members() == old(self).members(),
            final(self).wf() == old(self).wf(),
    ;

    fn members_count(&self) -> (n: usize)
        ensures
            n == self.members().len(),
    ;

    fn member_at(&self, i: usize) -> (kv: (Vec<u8>, Vec<u8>))
        requires
            i < self.members().len(),
        ensures
            kv.0@ == self.members()[i as int].0,
            kv.1@ == self.members()[i as int].1,
    ;

    fn insert_member(&mut self, value: &[u8], nonce: &[u8])
        requires
            old(self).wf(),
        ensures
            final(self).members() == insert_member_spec(old(self).members(), value@, nonce@),
            final(self).generator() == old(self).generator(),
            final(self).modulus() == old(self).modulus(),
            final(self).state() == old(self).state(),
            final(self).wf(),
    ;
}

} // verus!
