//! Growing a vector on demand.
use vstd::prelude::*;

verus! {

/// Grows the vector so that `index` is a valid position in it: new
/// positions hold copies of the type's default value. A vector that is long
/// enough already stays as it is.
pub fn grow_vec<T>(vec: &mut Vec<T>, index: usize) where T: Clone + Default
    requires
        index < usize::MAX,
    ensures
        final(vec).len() == if old(vec).len() <= index {
            index + 1
        } else {
            old(vec).len() as int
        },
        forall|i: int| 0 <= i < old(vec).len() ==> final(vec)@[i] == old(vec)@[i],
        old(vec).len() <= index ==> exists|d: T|
            call_ensures(T::default, (), d) && forall|i: int|
                #![all_triggers]
                old(vec).len() <= i <= index ==> cloned::<T>(d, final(vec)@[i]),
{
    if vec.len() <= index {
        let ghost before = vec@;
        let d = T::default();
        vec.resize(index + 1, d);
        assert(vec@.subrange(0, before.len() as int) == before);
        assert forall|i: int| 0 <= i < before.len() implies vec@[i] == before[i] by {
            assert(vec@.subrange(0, before.len() as int)[i] == vec@[i]);
        }
    }
}

} // verus!
