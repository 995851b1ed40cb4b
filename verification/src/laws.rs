//! The algebraic facts that tie the map operations together, stated over the
//! abstract view shared by both map variants. Each map's `insert` ensures
//! that its view becomes `view.insert(key, value)`, its `get` returns the
//! view's binding of the key, and its constructors yield the empty view;
//! these laws say what those map-algebra operations imply for a caller.

use vstd::prelude::*;

verus! {

/// Round trip: after a binding is inserted, looking the same key up yields
/// exactly the value inserted.
pub proof fn lemma_insert_then_get(m: Map<Seq<char>, Seq<char>>, k: Seq<char>, v: Seq<char>)
    ensures
        m.insert(k, v).contains_key(k),
        m.insert(k, v)[k] == v,
{
}

/// Inserting one key neither binds nor unbinds any other key, and leaves
/// every other key's value unchanged.
pub proof fn lemma_insert_preserves_others(
    m: Map<Seq<char>, Seq<char>>,
    k: Seq<char>,
    v: Seq<char>,
    k2: Seq<char>,
)
    requires
        k2 != k,
    ensures
        m.insert(k, v).contains_key(k2) == m.contains_key(k2),
        m.contains_key(k2) ==> m.insert(k, v)[k2] == m[k2],
{
}

/// Absence: a freshly created map binds no key at all.
pub proof fn lemma_empty_absent(k: Seq<char>)
    ensures
        !Map::<Seq<char>, Seq<char>>::empty().contains_key(k),
{
}

/// Duplicate keys overwrite: inserting the same key twice leaves the key
/// bound to the value inserted second.
pub proof fn lemma_insert_overwrites(
    m: Map<Seq<char>, Seq<char>>,
    k: Seq<char>,
    v1: Seq<char>,
    v2: Seq<char>,
)
    ensures
        m.insert(k, v1).insert(k, v2).contains_key(k),
        m.insert(k, v1).insert(k, v2)[k] == v2,
{
}

} // verus!
