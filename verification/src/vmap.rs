//! The registries' backing store: `vec_map::VecMap`, a map keyed by small
//! unsigned integers. The type is declared opaque; what each table holds is
//! named by a spec function, and each operation the registry logic uses is
//! wrapped with a contract stating what `vec_map`'s source does.

use vstd::prelude::*;
use crate::conn::ConnEntry;

verus! {

#[verifier::external_type_specification]
#[verifier::external_body]
#[verifier::reject_recursive_types(V)]
pub struct ExVecMap<V>(vec_map::VecMap<V>);

/// What a connection table holds: the registered entry under each id.
pub uninterp spec fn conn_map_view(m: vec_map::VecMap<ConnEntry>) -> Map<usize, ConnEntry>;

/// What a name table holds: the handshake name under each id.
pub uninterp spec fn name_map_view(m: vec_map::VecMap<String>) -> Map<usize, Seq<char>>;

/// Relies on vec_map::VecMap::new: the new map holds nothing.
#[verifier::external_body]
pub(crate) fn conn_map_new() -> (r: vec_map::VecMap<ConnEntry>)
    ensures
        ({ let v = conn_map_view(r); v == Map::<usize, ConnEntry>::empty() }),
{
    vec_map::VecMap::new()
}

/// Relies on vec_map::VecMap::insert: the value is stored under the key,
/// replacing whatever was there.
#[verifier::external_body]
pub(crate) fn conn_map_insert(m: &mut vec_map::VecMap<ConnEntry>, k: usize, v: ConnEntry)
    ensures
        conn_map_view(*final(m)) == conn_map_view(*old(m)).insert(k, v),
{
    m.insert(k, v);
}

/// Relies on vec_map::VecMap::remove: the entry under the key, if any, is
/// taken out and returned.
#[verifier::external_body]
pub(crate) fn conn_map_remove(m: &mut vec_map::VecMap<ConnEntry>, k: usize) -> (r: Option<
    ConnEntry,
>)
    ensures
        conn_map_view(*old(m)).contains_key(k) ==> {
            &&& r == Some(conn_map_view(*old(m))[k])
            &&& conn_map_view(*final(m)) == conn_map_view(*old(m)).remove(k)
        },
        !conn_map_view(*old(m)).contains_key(k) ==> {
            &&& r is None
            &&& conn_map_view(*final(m)) == conn_map_view(*old(m))
        },
{
    m.remove(k)
}

/// Relies on vec_map::VecMap::contains_key.
#[verifier::external_body]
pub(crate) fn conn_map_contains(m: &vec_map::VecMap<ConnEntry>, k: usize) -> (r: bool)
    ensures
        r == conn_map_view(*m).contains_key(k),
{
    m.contains_key(k)
}

/// Relies on vec_map::VecMap::keys: every key comes out exactly once, in
/// ascending order.
#[verifier::external_body]
pub(crate) fn conn_map_keys(m: &vec_map::VecMap<ConnEntry>) -> (r: Vec<usize>)
    ensures
        forall|a: int, b: int| 0 <= a < b < r@.len() ==> r@[a] < r@[b],
        forall|k: usize| r@.contains(k) <==> conn_map_view(*m).contains_key(k),
{
    let mut r = Vec::new();
    for k in m.keys() {
        r.push(k);
    }
    r
}

/// Relies on vec_map::VecMap::new: the new map holds nothing.
#[verifier::external_body]
pub(crate) fn name_map_new() -> (r: vec_map::VecMap<String>)
    ensures
        ({ let v = name_map_view(r); v == Map::<usize, Seq<char>>::empty() }),
{
    vec_map::VecMap::new()
}

/// Relies on vec_map::VecMap::insert: the value is stored under the key,
/// replacing whatever was there.
#[verifier::external_body]
pub(crate) fn name_map_insert(m: &mut vec_map::VecMap<String>, k: usize, v: String)
    ensures
        name_map_view(*final(m)) == name_map_view(*old(m)).insert(k, v@),
{
    m.insert(k, v);
}

/// Relies on vec_map::VecMap::get: a copy of the entry under the key, if
/// there is one.
#[verifier::external_body]
pub(crate) fn name_map_get(m: &vec_map::VecMap<String>, k: usize) -> (r: Option<String>)
    ensures
        match r {
            Some(s) => name_map_view(*m).contains_key(k) && s@ == name_map_view(*m)[k],
            None => !name_map_view(*m).contains_key(k),
        },
{
    m.get(k).cloned()
}

} // verus!
