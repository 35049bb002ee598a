//! The `fst` crate's sets and raw transducers, as the dictionary and the GADDAG use them.
//!
//! Everything in this file is trusted: the declarations make the crate's types usable in
//! verified code, and each wrapper's contract restates what the crate's source does.
//! The claims are made for bytes in the format that `fst`'s builder writes; on other bytes
//! that pass `Fst::new`'s header check nothing is claimed, and reads may panic there.
use vstd::prelude::*;
use crate::keys::lex_lt;

verus! {

#[verifier::external_type_specification]
#[verifier::external_body]
#[verifier::reject_recursive_types(D)]
pub struct ExFstSet<D>(fst::Set<D>);

#[verifier::external_type_specification]
#[verifier::external_body]
#[verifier::reject_recursive_types(W)]
pub struct ExFstSetBuilder<W>(fst::SetBuilder<W>);

#[verifier::external_type_specification]
#[verifier::external_body]
#[verifier::reject_recursive_types(D)]
pub struct ExFstRaw<D>(fst::raw::Fst<D>);

#[verifier::external_type_specification]
#[verifier::external_body]
pub struct ExFstError(fst::Error);

/// The keys, in the order a stream over it yields them, of the fst whose bytes are `data`,
/// where `data` is in the format that `fst`'s builder writes; `None` where it is not.
pub uninterp spec fn fst_decode(data: Seq<u8>) -> Option<Seq<Seq<u8>>>;

/// The address of the node reached from the root of the fst whose bytes are `data` by
/// following the transitions labelled with the bytes of `path`.
pub uninterp spec fn fst_state(data: Seq<u8>, path: Seq<u8>) -> usize;

/// The keys inserted so far into a set builder, in the order of insertion.
pub uninterp spec fn builder_keys(b: fst::SetBuilder<Vec<u8>>) -> Seq<Seq<u8>>;

/// The bytes that an `fst::Set` reads (`Set::as_fst().as_bytes()`).
pub uninterp spec fn set_bytes(s: fst::Set<Vec<u8>>) -> Seq<u8>;

/// The bytes that a raw `Fst` reads (`Fst::as_bytes()`).
pub uninterp spec fn raw_bytes(f: fst::raw::Fst<Vec<u8>>) -> Seq<u8>;

/// `p` is empty or begins some key of `ks`.
pub open spec fn live(ks: Seq<Seq<u8>>, p: Seq<u8>) -> bool {
    p.len() == 0 || exists|k: Seq<u8>| ks.contains(k) && p.is_prefix_of(k)
}

/// The bytes that can follow `p` in some key of `ks`, in increasing order.
pub open spec fn next_bytes(ks: Seq<Seq<u8>>, p: Seq<u8>) -> Seq<u8> {
    Seq::new(256, |i: int| i as u8).filter(|b: u8| live(ks, p.push(b)))
}

/// The node at `addr` of the fst on `data`, whose keys are `ks`, is the one that `p` reaches.
pub open spec fn at_state(data: Seq<u8>, ks: Seq<Seq<u8>>, p: Seq<u8>, addr: usize) -> bool {
    fst_decode(data) == Some(ks) && live(ks, p) && addr == fst_state(data, p)
}

/// `SetBuilder::memory`: a builder that writes to a vector and holds no key yet.
#[verifier::external_body]
pub(crate) fn builder_memory() -> (b: fst::SetBuilder<Vec<u8>>)
    ensures
        builder_keys(b) == Seq::<Seq<u8>>::empty(),
{
    fst::SetBuilder::memory()
}

/// `SetBuilder::insert`: a key greater than the last one is added; the last key again is
/// accepted and ignored; a smaller key is refused and the builder is left as it was.
/// Writing to a vector cannot fail, so no other error arises.
#[verifier::external_body]
pub(crate) fn builder_insert(b: &mut fst::SetBuilder<Vec<u8>>, key: &[u8]) -> (r: Result<
    (),
    fst::Error,
>)
    ensures
        builder_keys(*old(b)).len() == 0 || lex_lt(builder_keys(*old(b)).last(), key@) ==> r is Ok
            && builder_keys(*final(b)) == builder_keys(*old(b)).push(key@),
        builder_keys(*old(b)).len() > 0 && builder_keys(*old(b)).last() == key@ ==> r is Ok
            && builder_keys(*final(b)) == builder_keys(*old(b)),
        builder_keys(*old(b)).len() > 0 && lex_lt(key@, builder_keys(*old(b)).last()) ==> r is Err
            && builder_keys(*final(b)) == builder_keys(*old(b)),
{
    b.insert(key)
}

/// `SetBuilder::into_inner`: the finished bytes, which hold the inserted keys.
/// Writing to a vector cannot fail, so the result is always `Ok`.
#[verifier::external_body]
pub(crate) fn builder_into_inner(b: fst::SetBuilder<Vec<u8>>) -> (r: Result<Vec<u8>, fst::Error>)
    ensures
        r is Ok,
        r is Ok ==> fst_decode(r->Ok_0@) == Some(builder_keys(b)),
{
    b.into_inner()
}

/// `Set::new`: succeeds on bytes in the builder's format, and then reads those bytes.
#[verifier::external_body]
pub(crate) fn set_new(bytes: Vec<u8>) -> (r: Result<fst::Set<Vec<u8>>, fst::Error>)
    ensures
        fst_decode(bytes@) is Some ==> r is Ok,
        r is Ok ==> set_bytes(r->Ok_0) == bytes@,
{
    fst::Set::new(bytes)
}

/// `Set::contains`: whether `key` is one of the set's keys. Called only on a set whose
/// bytes are in the builder's format; on other bytes it may panic.
#[verifier::external_body]
pub(crate) fn set_contains(s: &fst::Set<Vec<u8>>, key: &[u8]) -> (r: bool)
    requires
        fst_decode(set_bytes(*s)) is Some,
    ensures
        fst_decode(set_bytes(*s)) matches Some(ks) ==> r == ks.contains(key@),
{
    s.contains(key)
}

/// `Set::len`: the number of keys, as the header records it.
#[verifier::external_body]
pub(crate) fn set_len(s: &fst::Set<Vec<u8>>) -> (r: usize)
    ensures
        fst_decode(set_bytes(*s)) matches Some(ks) ==> r == ks.len(),
{
    s.len()
}

/// `Fst::new`: succeeds on bytes in the builder's format, and then reads those bytes.
#[verifier::external_body]
pub(crate) fn raw_new(bytes: Vec<u8>) -> (r: Result<fst::raw::Fst<Vec<u8>>, fst::Error>)
    ensures
        fst_decode(bytes@) is Some ==> r is Ok,
        r is Ok ==> raw_bytes(r->Ok_0) == bytes@,
{
    fst::raw::Fst::new(bytes)
}

/// `Fst::root`, by its address. Called only on bytes in the builder's format; on other
/// bytes it may panic.
#[verifier::external_body]
pub(crate) fn raw_root(f: &fst::raw::Fst<Vec<u8>>) -> (r: usize)
    requires
        fst_decode(raw_bytes(*f)) is Some,
    ensures
        r == fst_state(raw_bytes(*f), Seq::<u8>::empty()),
{
    f.root().addr()
}

/// `Node::is_final` of the node at `addr`: whether the path that reaches it is a key.
/// Called only at the address of a node reached from the root of a well-formed fst.
#[verifier::external_body]
pub(crate) fn node_is_final(f: &fst::raw::Fst<Vec<u8>>, addr: usize) -> (r: bool)
    requires
        exists|ks: Seq<Seq<u8>>, p: Seq<u8>| #[trigger] at_state(raw_bytes(*f), ks, p, addr),
    ensures
        forall|ks: Seq<Seq<u8>>, p: Seq<u8>|
            #[trigger] at_state(raw_bytes(*f), ks, p, addr) ==> r == ks.contains(p),
{
    f.node(addr).is_final()
}

/// `Node::len` of the node at `addr`: how many bytes can follow the path that reaches it.
/// Called only at the address of a node reached from the root of a well-formed fst.
#[verifier::external_body]
pub(crate) fn node_len(f: &fst::raw::Fst<Vec<u8>>, addr: usize) -> (r: usize)
    requires
        exists|ks: Seq<Seq<u8>>, p: Seq<u8>| #[trigger] at_state(raw_bytes(*f), ks, p, addr),
    ensures
        forall|ks: Seq<Seq<u8>>, p: Seq<u8>|
            #[trigger] at_state(raw_bytes(*f), ks, p, addr) ==> r == next_bytes(ks, p).len(),
{
    f.node(addr).len()
}

/// `Node::find_input` of the node at `addr`: the index of the transition labelled `b`.
/// Called only at the address of a node reached from the root of a well-formed fst.
#[verifier::external_body]
pub(crate) fn node_find_input(f: &fst::raw::Fst<Vec<u8>>, addr: usize, b: u8) -> (r: Option<usize>)
    requires
        exists|ks: Seq<Seq<u8>>, p: Seq<u8>| #[trigger] at_state(raw_bytes(*f), ks, p, addr),
    ensures
        forall|ks: Seq<Seq<u8>>, p: Seq<u8>| #[trigger]
            at_state(raw_bytes(*f), ks, p, addr) ==> {
                &&& (r is Some <==> next_bytes(ks, p).contains(b))
                &&& (r matches Some(i) ==> i < next_bytes(ks, p).len() && next_bytes(ks, p)[i as int]
                    == b)
            },
{
    f.node(addr).find_input(b)
}

/// `Node::transition` of the node at `addr`: the `i`-th transition, in increasing order of
/// its byte, as that byte and the address of the node it leads to.
#[verifier::external_body]
pub(crate) fn node_transition(f: &fst::raw::Fst<Vec<u8>>, addr: usize, i: usize) -> (r: (u8, usize))
    requires
        exists|ks: Seq<Seq<u8>>, p: Seq<u8>| #[trigger] at_state(raw_bytes(*f), ks, p, addr),
        forall|ks: Seq<Seq<u8>>, p: Seq<u8>|
            #[trigger] at_state(raw_bytes(*f), ks, p, addr) ==> i < next_bytes(ks, p).len(),
    ensures
        forall|ks: Seq<Seq<u8>>, p: Seq<u8>| #[trigger]
            at_state(raw_bytes(*f), ks, p, addr) ==> r.0 == next_bytes(ks, p)[i as int] && r.1
                == fst_state(raw_bytes(*f), p.push(r.0)),
{
    let t = f.node(addr).transition(i);
    (t.inp, t.addr)
}

} // verus!
