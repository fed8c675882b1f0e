//! The collections of other crates that the pass keeps its bookkeeping in, with
//! what the pass relies on of each of their operations. Nothing here is proved:
//! every contract in this file is taken on trust from the crate it speaks of.

use vstd::prelude::*;
use std::rc::Rc;
use rustc_hash::{FxHashMap, FxHashSet, FxHasher};
use smallvec::SmallVec;
use crate::cache::CacheEntry;
use crate::depgraph::Node;
use crate::masm::Op;

verus! {

/// The hasher of `rustc_hash`. It is only ever named as a type parameter.
#[verifier::external_type_specification]
#[verifier::external_body]
pub struct ExFxHasher(FxHasher);

/// The standard library's builder of default-constructed hashers. It is only
/// ever named as a type parameter.
#[verifier::external_type_specification]
#[verifier::external_body]
#[verifier::reject_recursive_types(H)]
pub struct ExBuildHasherDefault<H>(std::hash::BuildHasherDefault<H>);

/// `FxHashSet::default` of `rustc_hash` (the standard `HashSet::default` with
/// the crate's hasher), for a set of numbers (of blocks, of values, of
/// positions): the new set holds nothing.
#[verifier::external_body]
pub(crate) fn id_set_new() -> (set: FxHashSet<u32>)
    ensures
        set@ == Set::<u32>::empty(),
{
    FxHashSet::default()
}

/// `HashSet::insert` on an `FxHashSet` of `rustc_hash`: afterwards the set
/// holds `id` besides what it held, and the result tells whether `id` was
/// new to it.
#[verifier::external_body]
pub(crate) fn id_set_insert(set: &mut FxHashSet<u32>, id: u32) -> (fresh: bool)
    ensures
        final(set)@ == old(set)@.insert(id),
        fresh == !old(set)@.contains(id),
{
    set.insert(id)
}

/// The entries kept for blocks, by block.
pub type BlockCache = FxHashMap<u32, Rc<CacheEntry>>;

/// An entry that is kept for a block and shared between the visits to it.
pub type SharedEntry = Rc<CacheEntry>;

/// `FxHashMap::default` of `rustc_hash` (the standard `HashMap::default`
/// with the crate's hasher): the new map holds nothing.
#[verifier::external_body]
pub(crate) fn cache_new() -> (entries: BlockCache)
    ensures
        entries@.dom() == Set::<u32>::empty(),
{
    FxHashMap::default()
}

/// `HashMap::get` on an `FxHashMap` of `rustc_hash`: the entry kept under
/// `block`, if there is one; the entry is shared, not copied.
#[verifier::external_body]
pub(crate) fn cache_get(cache: &BlockCache, block: u32) -> (entry: Option<SharedEntry>)
    ensures
        entry == (if cache@.contains_key(block) {
            Some(cache@[block])
        } else {
            None
        }),
{
    cache.get(&block).cloned()
}

/// `HashMap::insert` on an `FxHashMap` of `rustc_hash`: afterwards the map
/// keeps `entry` under `block`, and under every other key what it kept.
#[verifier::external_body]
pub(crate) fn cache_insert(cache: &mut BlockCache, block: u32, entry: SharedEntry)
    ensures
        final(cache)@ == old(cache)@.insert(block, entry),
{
    cache.insert(block, entry);
}

/// A short run of operations, kept in a `SmallVec` of `smallvec` that holds
/// two of them inline.
#[verifier::external_body]
pub struct OpBuffer {
    inner: SmallVec<[Op; 2]>,
}

/// The operations that the buffer holds, oldest first.
pub uninterp spec fn buffered(buffer: OpBuffer) -> Seq<Op>;

/// `SmallVec::new` of `smallvec`: the new buffer holds nothing.
#[verifier::external_body]
pub(crate) fn op_buffer_new() -> (buffer: OpBuffer)
    ensures
        buffered(buffer) == Seq::<Op>::empty(),
{
    OpBuffer { inner: SmallVec::new() }
}

/// `SmallVec::push` of `smallvec`: `op` is added behind what the buffer held.
#[verifier::external_body]
pub(crate) fn op_buffer_push(buffer: &mut OpBuffer, op: Op)
    ensures
        buffered(*final(buffer)) == buffered(*old(buffer)).push(op),
{
    buffer.inner.push(op)
}

/// `SmallVec::clear` of `smallvec`: afterwards the buffer holds nothing.
#[verifier::external_body]
pub(crate) fn op_buffer_clear(buffer: &mut OpBuffer)
    ensures
        buffered(*final(buffer)) == Seq::<Op>::empty(),
{
    buffer.inner.clear()
}

/// `SmallVec::len` of `smallvec`: the number of operations held.
#[verifier::external_body]
pub(crate) fn op_buffer_len(buffer: &OpBuffer) -> (len: usize)
    ensures
        len == buffered(*buffer).len(),
{
    buffer.inner.len()
}

/// Indexing a `SmallVec` of `smallvec` below its length: the operation held
/// at that place.
#[verifier::external_body]
pub(crate) fn op_buffer_get(buffer: &OpBuffer, at: usize) -> (op: Op)
    requires
        at < buffered(*buffer).len(),
    ensures
        op == buffered(*buffer)[at as int],
{
    buffer.inner[at]
}

/// A short run of nodes of a dependency graph, kept in a `SmallVec` of
/// `smallvec` that holds two of them inline.
#[verifier::external_body]
pub struct NodeBuffer {
    inner: SmallVec<[Node; 2]>,
}

/// The nodes that the buffer holds, oldest first.
pub uninterp spec fn collected(buffer: NodeBuffer) -> Seq<Node>;

/// `SmallVec::new` of `smallvec`: the new buffer holds nothing.
#[verifier::external_body]
pub(crate) fn node_buffer_new() -> (buffer: NodeBuffer)
    ensures
        collected(buffer) == Seq::<Node>::empty(),
{
    NodeBuffer { inner: SmallVec::new() }
}

/// `SmallVec::push` of `smallvec`: `node` is added behind what the buffer
/// held.
#[verifier::external_body]
pub(crate) fn node_buffer_push(buffer: &mut NodeBuffer, node: Node)
    ensures
        collected(*final(buffer)) == collected(*old(buffer)).push(node),
{
    buffer.inner.push(node)
}

/// `SmallVec::len` of `smallvec`: the number of nodes held.
#[verifier::external_body]
pub(crate) fn node_buffer_len(buffer: &NodeBuffer) -> (len: usize)
    ensures
        len == collected(*buffer).len(),
{
    buffer.inner.len()
}

/// Indexing a `SmallVec` of `smallvec` below its length: the node held at
/// that place.
#[verifier::external_body]
pub(crate) fn node_buffer_get(buffer: &NodeBuffer, at: usize) -> (node: Node)
    requires
        at < collected(*buffer).len(),
    ensures
        node == collected(*buffer)[at as int],
{
    buffer.inner[at]
}

} // verus!
