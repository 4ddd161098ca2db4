use vstd::prelude::*;
use im::Vector;

verus! {

#[verifier::external_type_specification]
#[verifier::external_body]
#[verifier::reject_recursive_types(A)]
pub struct ExVector<A>(Vector<A>);

/// The symbols held by a persistent vector of characters, front first.
pub uninterp spec fn symbols(v: Vector<char>) -> Seq<char>;

/// Relies on `im::Vector::new`: a new vector is empty.
#[verifier::external_body]
pub(crate) fn empty_symbols() -> (r: Vector<char>)
    ensures
        symbols(r) == Seq::<char>::empty(),
{
    Vector::new()
}

/// Relies on `im::Vector::push_back`: the value is appended at the back.
#[verifier::external_body]
pub(crate) fn push_symbol(v: &mut Vector<char>, c: char)
    ensures
        symbols(*final(v)) == symbols(*old(v)).push(c),
{
    v.push_back(c)
}

/// Relies on `im::Vector::pop_front`: removes and returns the first element,
/// or returns `None` and leaves an empty vector as it is.
#[verifier::external_body]
pub(crate) fn pop_symbol(v: &mut Vector<char>) -> (r: Option<char>)
    ensures
        symbols(*old(v)).len() == 0 ==> r is None && symbols(*final(v)) == symbols(*old(v)),
        symbols(*old(v)).len() > 0 ==> r == Some(symbols(*old(v))[0]) && symbols(*final(v))
            == symbols(*old(v)).drop_first(),
{
    v.pop_front()
}

/// Relies on `im::Vector::is_empty`: true exactly when the length is zero.
#[verifier::external_body]
pub(crate) fn symbols_empty(v: &Vector<char>) -> (r: bool)
    ensures
        r == (symbols(*v).len() == 0),
{
    v.is_empty()
}

/// Relies on `Clone` for `im::Vector`: the copy holds the same elements.
#[verifier::external_body]
pub(crate) fn copy_symbols(v: &Vector<char>) -> (r: Vector<char>)
    ensures
        symbols(r) == symbols(*v),
{
    v.clone()
}

/// The symbols of a string, in order, as a persistent vector.
pub fn key_to_vec(key: String) -> (r: Vector<char>)
    ensures
        symbols(r) == key@,
{
    let mut chars = empty_symbols();
    for c in it: key.as_str().chars()
        invariant
            it.seq() == key@,
            symbols(chars) == key@.take(it.index() as int),
    {
        push_symbol(&mut chars, c);
        assert(key@.take(it.index() as int + 1) == key@.take(it.index() as int).push(c));
    }
    assert(symbols(chars) == key@);
    chars
}

} // verus!
