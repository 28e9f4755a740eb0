use vstd::prelude::*;

use bevy::platform::collections::HashSet;
use bevy::platform::hash::FixedHasher;

verus! {

/// `bevy::platform::hash::FixedHasher`, the default hasher of Bevy's sets: carried as
/// an opaque type argument.
#[verifier::external_type_specification]
#[verifier::external_body]
pub struct ExFixedHasher(FixedHasher);

/// `bevy::platform::collections::HashSet`, which holds the requested chunks; its
/// contents are known to Verus only through `chunk_set` and the wrappers below.
#[verifier::external_type_specification]
#[verifier::external_body]
#[verifier::reject_recursive_types(T)]
#[verifier::reject_recursive_types(S)]
pub struct ExHashSet<T, S>(HashSet<T, S>);

/// The chunk positions that a set of requested chunks holds.
pub uninterp spec fn chunk_set(s: HashSet<(i32, i32), FixedHasher>) -> Set<(int, int)>;

/// Relies on `bevy::platform::collections::HashSet::new`: the set starts empty.
#[verifier::external_body]
pub(crate) fn empty_chunk_set() -> (r: HashSet<(i32, i32), FixedHasher>)
    ensures
        chunk_set(r) == Set::<(int, int)>::empty(),
{
    HashSet::new()
}

/// Relies on `bevy::platform::collections::HashSet::contains`: whether the set holds `k`.
#[verifier::external_body]
pub(crate) fn chunk_set_contains(s: &HashSet<(i32, i32), FixedHasher>, k: (i32, i32)) -> (r: bool)
    ensures
        r == chunk_set(*s).contains((k.0 as int, k.1 as int)),
{
    s.contains(&k)
}

/// Relies on `bevy::platform::collections::HashSet::insert`: `k` is added, nothing else
/// changes, and the result says whether `k` was absent.
#[verifier::external_body]
pub(crate) fn chunk_set_insert(s: &mut HashSet<(i32, i32), FixedHasher>, k: (i32, i32)) -> (r: bool)
    ensures
        chunk_set(*final(s)) == chunk_set(*old(s)).insert((k.0 as int, k.1 as int)),
        r == !chunk_set(*old(s)).contains((k.0 as int, k.1 as int)),
{
    s.insert(k)
}

} // verus!
