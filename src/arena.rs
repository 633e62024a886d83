//! The graph store's two arenas, kept in `generational_arena::Arena`.
//!
//! Identifiers are the arena's indices taken apart into their slot and
//! generation, so that the rest of the library can compare and store them
//! as plain values.
use vstd::prelude::*;
use generational_arena::{Arena, Index};
use crate::canvas::{Location, Track};

verus! {

#[verifier::external_type_specification]
#[verifier::external_body]
#[verifier::reject_recursive_types(T)]
pub struct ExArena<T>(Arena<T>);

/// A stable identifier of a location or a track: an arena index as its
/// slot and generation.
#[derive(Clone, Copy, PartialEq, Eq, Debug, Hash, Structural)]
pub struct Id {
    pub slot: usize,
    pub generation: u64,
}

/// The live entries of the location arena, by identifier.
pub uninterp spec fn location_entries(a: Arena<Location>) -> Map<Id, Location>;

/// The live entries of the track arena, by identifier.
pub uninterp spec fn track_entries(a: Arena<Track>) -> Map<Id, Track>;

/// Relies on `Arena::new`: a new arena holds nothing.
#[verifier::external_body]
pub(crate) fn new_location_arena() -> (r: Arena<Location>)
    ensures
        location_entries(r) =~= Map::empty(),
{
    Arena::new()
}

/// Relies on `Arena::insert`: the value is stored under an index that no
/// live entry had (a free slot, or a new one).
#[verifier::external_body]
pub(crate) fn insert_location(a: &mut Arena<Location>, v: Location) -> (r: Id)
    ensures
        !location_entries(*old(a)).contains_key(r),
        location_entries(*final(a)) == location_entries(*old(a)).insert(r, v),
{
    let (slot, generation) = a.insert(v).into_raw_parts();
    Id { slot, generation }
}

/// Relies on `Arena::contains`: whether the index names a live entry.
#[verifier::external_body]
pub(crate) fn has_location(a: &Arena<Location>, id: Id) -> (r: bool)
    ensures
        r == location_entries(*a).contains_key(id),
{
    a.contains(Index::from_raw_parts(id.slot, id.generation))
}

/// Relies on `Arena`'s `Index` impl: the live entry under the index.
#[verifier::external_body]
pub(crate) fn location_at(a: &Arena<Location>, id: Id) -> (r: &Location)
    requires
        location_entries(*a).contains_key(id),
    ensures
        *r == location_entries(*a)[id],
{
    &a[Index::from_raw_parts(id.slot, id.generation)]
}

/// Relies on `Arena`'s `IndexMut` impl: the live entry under the index is
/// replaced by `v` and handed back.
#[verifier::external_body]
pub(crate) fn replace_location(a: &mut Arena<Location>, id: Id, v: Location) -> (r: Location)
    requires
        location_entries(*old(a)).contains_key(id),
    ensures
        r == location_entries(*old(a))[id],
        location_entries(*final(a)) == location_entries(*old(a)).insert(id, v),
{
    std::mem::replace(&mut a[Index::from_raw_parts(id.slot, id.generation)], v)
}

/// Relies on `Arena::remove`: the entry under the index leaves the arena
/// and is handed back, if it was live.
#[verifier::external_body]
pub(crate) fn remove_location(a: &mut Arena<Location>, id: Id) -> (r: Option<Location>)
    ensures
        r == (if location_entries(*old(a)).contains_key(id) {
            Some(location_entries(*old(a))[id])
        } else {
            None
        }),
        location_entries(*final(a)) == location_entries(*old(a)).remove(id),
{
    a.remove(Index::from_raw_parts(id.slot, id.generation))
}

/// Relies on `Arena::len`: the number of live entries.
#[verifier::external_body]
pub(crate) fn location_count(a: &Arena<Location>) -> (r: usize)
    ensures
        r == location_entries(*a).dom().len(),
{
    a.len()
}

/// Relies on `Arena::new`: a new arena holds nothing.
#[verifier::external_body]
pub(crate) fn new_track_arena() -> (r: Arena<Track>)
    ensures
        track_entries(r) =~= Map::empty(),
{
    Arena::new()
}

/// Relies on `Arena::insert`: the value is stored under an index that no
/// live entry had (a free slot, or a new one).
#[verifier::external_body]
pub(crate) fn insert_track(a: &mut Arena<Track>, v: Track) -> (r: Id)
    ensures
        !track_entries(*old(a)).contains_key(r),
        track_entries(*final(a)) == track_entries(*old(a)).insert(r, v),
{
    let (slot, generation) = a.insert(v).into_raw_parts();
    Id { slot, generation }
}

/// Relies on `Arena::contains`: whether the index names a live entry.
#[verifier::external_body]
pub(crate) fn has_track(a: &Arena<Track>, id: Id) -> (r: bool)
    ensures
        r == track_entries(*a).contains_key(id),
{
    a.contains(Index::from_raw_parts(id.slot, id.generation))
}

/// Relies on `Arena`'s `Index` impl: the live entry under the index.
#[verifier::external_body]
pub(crate) fn track_at(a: &Arena<Track>, id: Id) -> (r: &Track)
    requires
        track_entries(*a).contains_key(id),
    ensures
        *r == track_entries(*a)[id],
{
    &a[Index::from_raw_parts(id.slot, id.generation)]
}

/// Relies on `Arena`'s `IndexMut` impl: the live entry under the index is
/// replaced by `v` and handed back.
#[verifier::external_body]
pub(crate) fn replace_track(a: &mut Arena<Track>, id: Id, v: Track) -> (r: Track)
    requires
        track_entries(*old(a)).contains_key(id),
    ensures
        r == track_entries(*old(a))[id],
        track_entries(*final(a)) == track_entries(*old(a)).insert(id, v),
{
    std::mem::replace(&mut a[Index::from_raw_parts(id.slot, id.generation)], v)
}

/// Relies on `Arena::remove`: the entry under the index leaves the arena
/// and is handed back, if it was live.
#[verifier::external_body]
pub(crate) fn remove_track(a: &mut Arena<Track>, id: Id) -> (r: Option<Track>)
    ensures
        r == (if track_entries(*old(a)).contains_key(id) {
            Some(track_entries(*old(a))[id])
        } else {
            None
        }),
        track_entries(*final(a)) == track_entries(*old(a)).remove(id),
{
    a.remove(Index::from_raw_parts(id.slot, id.generation))
}

/// Relies on `Arena::len`: the number of live entries.
#[verifier::external_body]
pub(crate) fn track_count(a: &Arena<Track>) -> (r: usize)
    ensures
        r == track_entries(*a).dom().len(),
{
    a.len()
}

} // verus!
