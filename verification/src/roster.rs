//! The party's ordered map from character ids to characters, an `OrderMap` of
//! the `ordermap` crate, and the calls that the library makes on it.
use vstd::prelude::*;
use ordermap::OrderMap;
use crate::characters::{Character, CharacterId};

verus! {

#[verifier::external_type_specification]
#[verifier::external_body]
#[verifier::reject_recursive_types(K)]
#[verifier::reject_recursive_types(V)]
#[verifier::reject_recursive_types(S)]
pub struct ExOrderMap<K, V, S>(OrderMap<K, V, S>);

/// The key-value pairs that an `OrderMap` holds, in its order.
pub uninterp spec fn roster_entries(m: OrderMap<CharacterId, Character>) -> Seq<(CharacterId, Character)>;

/// Whether some pair of `s` has key `k`.
pub open spec fn has_key(s: Seq<(CharacterId, Character)>, k: CharacterId) -> bool {
    exists|i: int| 0 <= i < s.len() && s[i].0 == k
}

/// `OrderMap::new`: a new map holds nothing.
#[verifier::external_body]
pub(crate) fn roster_new() -> (m: OrderMap<CharacterId, Character>)
    ensures
        roster_entries(m) == Seq::<(CharacterId, Character)>::empty(),
{
    OrderMap::new()
}

/// `OrderMap::len`: the number of pairs.
#[verifier::external_body]
pub(crate) fn roster_len(m: &OrderMap<CharacterId, Character>) -> (n: usize)
    ensures
        n == roster_entries(*m).len(),
{
    m.len()
}

/// `OrderMap::get_index`: the pair at position `i`, if there is one.
#[verifier::external_body]
pub(crate) fn roster_get_index(m: &OrderMap<CharacterId, Character>, i: usize) -> (r: Option<(&CharacterId, &Character)>)
    ensures
        i < roster_entries(*m).len() <==> r is Some,
        r matches Some(p) ==> *p.0 == roster_entries(*m)[i as int].0 && *p.1 == roster_entries(*m)[i as int].1,
{
    m.get_index(i)
}

/// `OrderMap::get_index_mut`: the pair at position `i`, its value to be changed
/// in place; the order and the keys stay as they are.
#[verifier::external_body]
pub(crate) fn roster_get_index_mut(m: &mut OrderMap<CharacterId, Character>, i: usize) -> (r: Option<(&CharacterId, &mut Character)>)
    ensures
        i < roster_entries(*old(m)).len() <==> r is Some,
        r matches Some(p) ==> {
            &&& *p.0 == roster_entries(*old(m))[i as int].0
            &&& *p.1 == roster_entries(*old(m))[i as int].1
            &&& roster_entries(*final(m)) == roster_entries(*old(m)).update(
                i as int,
                (roster_entries(*old(m))[i as int].0, *final(p.1)),
            )
        },
        r is None ==> roster_entries(*final(m)) == roster_entries(*old(m)),
{
    m.get_index_mut(i)
}

/// `OrderMap::get`: the value of a pair with key `k`, if there is one.
#[verifier::external_body]
pub(crate) fn roster_get<'a>(m: &'a OrderMap<CharacterId, Character>, k: &CharacterId) -> (r: Option<&'a Character>)
    ensures
        r is Some <==> has_key(roster_entries(*m), *k),
        r matches Some(v) ==> exists|i: int|
            0 <= i < roster_entries(*m).len() && roster_entries(*m)[i].0 == *k && roster_entries(*m)[i].1 == *v,
{
    m.get(k)
}

/// `OrderMap::insert`: a key already there keeps its place and gets the new
/// value, the old one coming back; a new key goes last.
#[verifier::external_body]
pub(crate) fn roster_insert(m: &mut OrderMap<CharacterId, Character>, k: CharacterId, v: Character) -> (r: Option<Character>)
    ensures
        has_key(roster_entries(*old(m)), k) ==> exists|i: int| {
            &&& 0 <= i < roster_entries(*old(m)).len()
            &&& roster_entries(*old(m))[i].0 == k
            &&& roster_entries(*final(m)) == roster_entries(*old(m)).update(i, (k, v))
            &&& r == Some(roster_entries(*old(m))[i].1)
        },
        !has_key(roster_entries(*old(m)), k) ==> {
            &&& roster_entries(*final(m)) == roster_entries(*old(m)).push((k, v))
            &&& r is None
        },
{
    m.insert(k, v)
}

/// `OrderMap::remove_index`: removes the pair at position `i`, shifting the
/// pairs after it, whose order stays.
#[verifier::external_body]
pub(crate) fn roster_remove_index(m: &mut OrderMap<CharacterId, Character>, i: usize) -> (r: Option<(CharacterId, Character)>)
    ensures
        i < roster_entries(*old(m)).len() ==> {
            &&& roster_entries(*final(m)) == roster_entries(*old(m)).remove(i as int)
            &&& r == Some(roster_entries(*old(m))[i as int])
        },
        i >= roster_entries(*old(m)).len() ==> {
            &&& roster_entries(*final(m)) == roster_entries(*old(m))
            &&& r is None
        },
{
    m.remove_index(i)
}

} // verus!
