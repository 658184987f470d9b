//! The parameters bound by matched routes, held in bevy's `HashMap`.
use vstd::prelude::*;
use bevy_platform::collections::HashMap;

verus! {

#[verifier::external_type_specification]
#[verifier::external_body]
#[verifier::reject_recursive_types(K)]
#[verifier::reject_recursive_types(V)]
#[verifier::reject_recursive_types(S)]
pub struct ExHashMap<K, V, S>(HashMap<K, V, S>);

#[verifier::external_type_specification]
#[verifier::external_body]
pub struct ExFixedHasher(bevy_platform::hash::FixedHasher);

/// No parameters at all.
pub open spec fn no_params() -> Map<Seq<char>, Seq<char>> {
    Map::empty()
}

/// What a map of parameters holds: each key's characters mapped to its value's characters.
pub uninterp spec fn map_contents(m: HashMap<String, String>) -> Map<Seq<char>, Seq<char>>;

/// `HashMap::new` of bevy_platform: claims that the new map holds nothing.
#[verifier::external_body]
pub(crate) fn map_new() -> (m: HashMap<String, String>)
    ensures
        map_contents(m) == no_params(),
{
    HashMap::new()
}

/// `HashMap::insert` of bevy_platform: claims that the key now maps to the value and every
/// other key keeps its value. The previous value that `insert` hands back is dropped.
#[verifier::external_body]
pub(crate) fn map_insert(m: &mut HashMap<String, String>, k: String, v: String)
    ensures
        map_contents(*final(m)) == map_contents(*old(m)).insert(k@, v@),
{
    m.insert(k, v);
}

/// `HashMap::get` of bevy_platform, with a string slice as the key: claims that the result
/// is present exactly when the map holds the key, and is then the value held for it.
#[verifier::external_body]
pub(crate) fn map_get<'m>(m: &'m HashMap<String, String>, k: &str) -> (r: Option<&'m String>)
    ensures
        r is Some <==> map_contents(*m).contains_key(k@),
        r matches Some(v) ==> v@ == map_contents(*m)[k@],
{
    m.get(k)
}

/// `HashMap::clear` of bevy_platform: claims that the map holds nothing afterwards.
#[verifier::external_body]
pub(crate) fn map_clear(m: &mut HashMap<String, String>)
    ensures
        map_contents(*final(m)) == no_params(),
{
    m.clear();
}

/// `Extend::extend` of bevy_platform's `HashMap`, fed with the entries of another map:
/// claims that every entry of `other` is inserted, overriding the value a key held before,
/// and that keys absent from `other` keep their values. The keys of `other` are distinct,
/// so the order in which they come does not matter.
#[verifier::external_body]
pub(crate) fn map_extend(m: &mut HashMap<String, String>, other: HashMap<String, String>)
    ensures
        map_contents(*final(m)) == map_contents(*old(m)).union_prefer_right(map_contents(other)),
{
    m.extend(other);
}

/// The parameters bound by the routes that matched the current path, by name.
#[derive(Debug)]
pub struct RouteParams(HashMap<String, String>);

impl View for RouteParams {
    type V = Map<Seq<char>, Seq<char>>;

    closed spec fn view(&self) -> Map<Seq<char>, Seq<char>> {
        map_contents(self.0)
    }
}

impl Default for RouteParams {
    fn default() -> (r: Self)
        ensures
            r@ == no_params(),
    {
        RouteParams(map_new())
    }
}

impl RouteParams {
    /// The value bound to `param`, if any.
    pub fn get(&self, param: &str) -> (r: Option<&str>)
        ensures
            r is Some <==> self@.contains_key(param@),
            r matches Some(v) ==> v@ == self@[param@],
    {
        match map_get(&self.0, param) {
            Some(s) => Some(s.as_str()),
            None => None,
        }
    }

    /// Forgets every parameter.
    pub fn clear(&mut self)
        ensures
            final(self)@ == no_params(),
    {
        map_clear(&mut self.0);
    }

    /// Binds every parameter of `params`, overriding earlier bindings of the same names.
    pub fn extend(&mut self, params: HashMap<String, String>)
        ensures
            final(self)@ == old(self)@.union_prefer_right(map_contents(params)),
    {
        map_extend(&mut self.0, params);
    }
}

} // verus!
