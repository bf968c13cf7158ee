//! The persistent sets and maps of `im_rc`, as far as the type language and the
//! inference use them. Nothing here is proved: each function hands one call on
//! to the collection, and its contract says what that call does to what the
//! collection holds.

use crate::text;
use crate::types::{Binder, Scheme, SchemeView, Type, TypeView};
use im_rc::{HashMap, HashSet};
use vstd::prelude::*;

verus! {

/// `im_rc::HashSet`, the persistent hash set, taken as an opaque type.
#[verifier::external_type_specification]
#[verifier::external_body]
#[verifier::reject_recursive_types(A)]
#[verifier::reject_recursive_types(S)]
pub struct ExHashSet<A, S>(im_rc::HashSet<A, S>);

/// The binders that a set holds.
pub uninterp spec fn binders(set: HashSet<Binder>) -> Set<Seq<char>>;

/// `im_rc::HashSet::default`: a set that holds nothing.
#[verifier::external_body]
pub(crate) fn no_binders() -> (set: HashSet<Binder>)
    ensures
        binders(set) == Set::<Seq<char>>::empty(),
{
    HashSet::default()
}

/// `im_rc::HashSet::from` on a vector: the set of the vector's items.
#[verifier::external_body]
pub(crate) fn binders_from(names: Vec<Binder>) -> (set: HashSet<Binder>)
    ensures
        binders(set) == text::views(names@).to_set(),
{
    HashSet::from(names)
}

/// `im_rc::HashSet::union`: the set of what either set holds.
#[verifier::external_body]
pub(crate) fn union_binders(left: HashSet<Binder>, right: HashSet<Binder>) -> (set: HashSet<
    Binder,
>)
    ensures
        binders(set) == binders(left).union(binders(right)),
{
    left.union(right)
}

/// `im_rc::HashSet::clone`: a set that holds the same.
#[verifier::external_body]
pub(crate) fn clone_binders(set: &HashSet<Binder>) -> (copy: HashSet<Binder>)
    ensures
        binders(copy) == binders(*set),
{
    set.clone()
}

/// `im_rc::HashSet::contains`: whether the set holds the binder.
#[verifier::external_body]
pub(crate) fn has_binder(set: &HashSet<Binder>, binder: &Binder) -> (held: bool)
    ensures
        held == binders(*set).contains(binder@),
{
    set.contains(binder)
}

/// `im_rc::HashSet::iter`: the binders that the set holds, each once, in the
/// order in which the set hands them out. The order is the hasher's, so nothing
/// is said of it.
#[verifier::external_body]
pub(crate) fn list_binders(set: &HashSet<Binder>) -> (items: Vec<Binder>)
    ensures
        text::views(items@).to_set() == binders(*set),
        text::views(items@).no_duplicates(),
{
    set.iter().cloned().collect()
}

/// `im_rc::HashMap`, the persistent hash map, taken as an opaque type.
#[verifier::external_type_specification]
#[verifier::external_body]
#[verifier::reject_recursive_types(K)]
#[verifier::reject_recursive_types(V)]
#[verifier::reject_recursive_types(S)]
pub struct ExHashMap<K, V, S>(im_rc::HashMap<K, V, S>);

/// The types that a map binds binders to.
pub uninterp spec fn bindings(map: HashMap<Binder, Type>) -> Map<Seq<char>, TypeView>;

/// The union of two maps as the collection computes it: where both bind a key,
/// the value is that of the left map unless the right map is the larger one.
pub open spec fn union_of<V>(left: Map<Seq<char>, V>, right: Map<Seq<char>, V>) -> Map<
    Seq<char>,
    V,
> {
    if left.len() >= right.len() {
        right.union_prefer_right(left)
    } else {
        left.union_prefer_right(right)
    }
}

/// Whether the entries list the map: each entry is a binding of the map, each
/// binding of the map is an entry, and no key comes twice.
pub open spec fn lists<V>(entries: Seq<(Seq<char>, V)>, map: Map<Seq<char>, V>) -> bool {
    &&& forall|i: int|
        0 <= i < entries.len() ==> map.contains_key((#[trigger] entries[i]).0) && map[entries[i].0]
            == entries[i].1
    &&& forall|key: Seq<char>| #[trigger]
        map.contains_key(key) ==> exists|i: int| 0 <= i < entries.len() && entries[i].0 == key
    &&& forall|i: int, j: int|
        0 <= i < j < entries.len() ==> (#[trigger] entries[i]).0 != (#[trigger] entries[j]).0
}

/// The views of a run of bindings.
pub open spec fn binding_views(entries: Seq<(Binder, Type)>) -> Seq<(Seq<char>, TypeView)> {
    Seq::new(entries.len(), |i: int| (entries[i].0@, entries[i].1@))
}

/// `im_rc::HashMap::default`: a map that binds nothing.
#[verifier::external_body]
pub(crate) fn no_bindings() -> (nothing: HashMap<Binder, Type>)
    ensures
        bindings(nothing) == (Map::<Seq<char>, TypeView>::empty()),
{
    HashMap::default()
}

/// `im_rc::HashMap::get`: the type that the map binds the binder to, if it binds
/// it.
#[verifier::external_body]
pub(crate) fn binding<'a>(map: &'a HashMap<Binder, Type>, binder: &Binder) -> (found: Option<
    &'a Type,
>)
    ensures
        found is Some <==> bindings(*map).contains_key(binder@),
        found matches Some(t) ==> t@ == bindings(*map)[binder@],
{
    map.get(binder)
}

/// `im_rc::HashMap::update`: a map that binds the binder to the type, and
/// everything else as the given map does.
#[verifier::external_body]
pub(crate) fn with_binding(
    map: &HashMap<Binder, Type>,
    binder: Binder,
    t: Type,
) -> (updated: HashMap<Binder, Type>)
    ensures
        bindings(updated) == bindings(*map).insert(binder@, t@),
{
    map.update(binder, t)
}

/// `im_rc::HashMap::union`: a map that binds what either map binds. Where both
/// bind a key, the collection keeps the value of the map it grows, which is the
/// left one unless the right one holds more bindings.
#[verifier::external_body]
pub(crate) fn union_bindings(
    left: HashMap<Binder, Type>,
    right: HashMap<Binder, Type>,
) -> (both: HashMap<Binder, Type>)
    ensures
        bindings(both) == union_of(bindings(left), bindings(right)),
{
    left.union(right)
}

/// `im_rc::HashMap::without`: a map that binds everything as the given map does,
/// but for the binder, which it does not bind.
#[verifier::external_body]
pub(crate) fn without_binding(map: &HashMap<Binder, Type>, binder: &Binder) -> (rest: HashMap<
    Binder,
    Type,
>)
    ensures
        bindings(rest) == bindings(*map).remove(binder@),
{
    map.without(binder)
}

/// `im_rc::HashMap::clone`: a map that binds the same.
#[verifier::external_body]
pub(crate) fn clone_bindings(map: &HashMap<Binder, Type>) -> (copy: HashMap<Binder, Type>)
    ensures
        bindings(copy) == bindings(*map),
{
    map.clone()
}

/// `im_rc::HashMap::iter`: the bindings of the map, each once, in the order in
/// which the map hands them out. The order is the hasher's, so nothing is said
/// of it.
#[verifier::external_body]
pub(crate) fn list_bindings(map: &HashMap<Binder, Type>) -> (entries: Vec<(Binder, Type)>)
    ensures
        lists(binding_views(entries@), bindings(*map)),
{
    map.iter().map(|(binder, t)| (binder.clone(), t.clone())).collect()
}

/// The schemes that a map binds binders to.
pub uninterp spec fn schemes(map: HashMap<Binder, Scheme>) -> Map<Seq<char>, SchemeView>;

/// The views of a run of bindings to schemes.
pub open spec fn scheme_views(entries: Seq<(Binder, Scheme)>) -> Seq<(Seq<char>, SchemeView)> {
    Seq::new(entries.len(), |i: int| (entries[i].0@, entries[i].1@))
}

/// `im_rc::HashMap::default`: a map that binds nothing.
#[verifier::external_body]
pub(crate) fn no_schemes() -> (nothing: HashMap<Binder, Scheme>)
    ensures
        schemes(nothing) == (Map::<Seq<char>, SchemeView>::empty()),
{
    HashMap::default()
}

/// `im_rc::HashMap::get`: the scheme that the map binds the binder to, if it
/// binds it.
#[verifier::external_body]
pub(crate) fn scheme_of<'a>(map: &'a HashMap<Binder, Scheme>, binder: &Binder) -> (found: Option<
    &'a Scheme,
>)
    ensures
        found is Some <==> schemes(*map).contains_key(binder@),
        found matches Some(scheme) ==> scheme@ == schemes(*map)[binder@],
{
    map.get(binder)
}

/// `im_rc::HashMap::update`: a map that binds the binder to the scheme, and
/// everything else as the given map does.
#[verifier::external_body]
pub(crate) fn with_scheme(
    map: &HashMap<Binder, Scheme>,
    binder: Binder,
    scheme: Scheme,
) -> (updated: HashMap<Binder, Scheme>)
    ensures
        schemes(updated) == schemes(*map).insert(binder@, scheme@),
{
    map.update(binder, scheme)
}

/// `im_rc::HashMap::clone`: a map that binds the same.
#[verifier::external_body]
pub(crate) fn clone_schemes(map: &HashMap<Binder, Scheme>) -> (copy: HashMap<Binder, Scheme>)
    ensures
        schemes(copy) == schemes(*map),
{
    map.clone()
}

/// `im_rc::HashMap::iter`: the bindings of the map, each once, in the order in
/// which the map hands them out. The order is the hasher's, so nothing is said
/// of it.
#[verifier::external_body]
pub(crate) fn list_schemes(map: &HashMap<Binder, Scheme>) -> (entries: Vec<(Binder, Scheme)>)
    ensures
        lists(scheme_views(entries@), schemes(*map)),
{
    map.iter().map(|(binder, scheme)| (binder.clone(), scheme.clone())).collect()
}

} // verus!
