//! The table in which a loaded artifact finds an item by its path: a
//! `hashbrown` hash map from the bytes of a path to the item's position in
//! the manifest. Verus does not look inside the map; the functions below say
//! what each call does to its entries.

use vstd::prelude::*;

verus! {

/// A `hashbrown::HashMap` from path bytes to positions.
#[verifier::external_body]
pub struct PathIndex<'a> {
    map: hashbrown::HashMap<&'a [u8], usize>,
}

/// The entries of the map: which position stands under which path.
pub uninterp spec fn index_entries(index: PathIndex<'_>) -> Map<Seq<u8>, usize>;

/// Calls `hashbrown::HashMap::new`: a map without entries.
#[verifier::external_body]
pub(crate) fn index_new<'a>() -> (index: PathIndex<'a>)
    ensures
        index_entries(index) == (Map::<Seq<u8>, usize>::empty()),
{
    PathIndex { map: hashbrown::HashMap::new() }
}

/// Calls `hashbrown::HashMap::insert`: afterwards `position` stands under
/// `path`, in place of what stood there before if anything did, and every
/// other entry is as it was.
#[verifier::external_body]
pub(crate) fn index_insert<'a>(index: &mut PathIndex<'a>, path: &'a [u8], position: usize)
    ensures
        index_entries(*final(index)) == index_entries(*old(index)).insert(path@, position),
{
    index.map.insert(path, position);
}

/// Calls `hashbrown::HashMap::get`: the position that stands under `path`, if
/// one does.
#[verifier::external_body]
pub(crate) fn index_get(index: &PathIndex<'_>, path: &[u8]) -> (position: Option<usize>)
    ensures
        position == if index_entries(*index).contains_key(path@) {
            Some(index_entries(*index)[path@])
        } else {
            None
        },
{
    index.map.get(path).copied()
}

} // verus!
