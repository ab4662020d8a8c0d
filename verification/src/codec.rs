//! Encoding: the placement decision, chain assembly and branch spill.
//!
//! Everything is written back to front: the caller's builder already holds
//! whatever was prepended before, and an array is placed in front of it.
//! An array that fits the remaining bits is placed inline: elements first
//! (in order: the first element earliest in final bit order), then, for a
//! dynamic array, the one-byte length, then the 2-bit inline tag in front of
//! it all. An array that does not fit is rebuilt in a fresh node, attached
//! as the next child reference, and only the 2-bit branch tag is written
//! into the destination.
//!
//! `spec_prepend_value` is the mathematical model of the whole encoder; each
//! executable function is proved to agree with its spec counterpart exactly,
//! on success and on every error.
use vstd::prelude::*;

use crate::node::BIT_CAPACITY;
use crate::node::Builder;
use crate::node::byte_bits;
use crate::node::MAX_REFS;
use crate::node::NodeModel;
use crate::value::lemma_values_view;
use crate::value::size_of_seq;
use crate::value::Value;
use crate::value::value_view;
use crate::value::ValueModel;
use crate::value::values_view;
use crate::EncodeError;

verus! {

/// The 2-bit mark meaning "the array data follows inline in this node".
pub open spec fn tag_inline() -> Seq<bool> {
    seq![true, false]
}

/// The 2-bit mark meaning "the array data lives in the child node
/// referenced next".
pub open spec fn tag_branch() -> Seq<bool> {
    seq![false, false]
}

/// A node with nothing in it.
pub open spec fn empty_node() -> NodeModel {
    NodeModel { bits: Seq::empty(), kids: Seq::empty() }
}

/// Bits prepended to a node model, watching the capacity bound.
pub open spec fn m_prepend_bits(d: NodeModel, bs: Seq<bool>) -> Result<NodeModel, EncodeError> {
    if d.bits.len() + bs.len() <= BIT_CAPACITY {
        Ok(NodeModel { bits: bs + d.bits, kids: d.kids })
    } else {
        Err(EncodeError::CapacityExceeded)
    }
}

/// The placement decision: the array goes inline exactly when a dynamic
/// length still fits its one-byte prefix and the whole inline form (payload
/// plus tag) fits the bits remaining in the destination.
pub open spec fn takes_inline(dest: NodeModel, es: Seq<ValueModel>, dynamic: bool) -> bool {
    let payload = (if dynamic {
        8int
    } else {
        0int
    }) + size_of_seq(es);
    &&& (!dynamic || es.len() <= 255)
    &&& dest.bits.len() + payload + 2 <= BIT_CAPACITY
}

/// Model of prepending one value.
pub open spec fn spec_prepend_value(dest: NodeModel, v: ValueModel) -> Result<
    NodeModel,
    EncodeError,
>
    decreases v, 4int,
{
    match v {
        ValueModel::Bool(b) => m_prepend_bits(dest, seq![b]),
        ValueModel::Byte(x) => m_prepend_bits(dest, byte_bits(x)),
        ValueModel::Dyn(es) => spec_prepend_array(dest, es, true),
        ValueModel::Fixed(es) => spec_prepend_array(dest, es, false),
    }
}

/// Model of the placement decision and both placements.
pub open spec fn spec_prepend_array(dest: NodeModel, es: Seq<ValueModel>, dynamic: bool) -> Result<
    NodeModel,
    EncodeError,
>
    decreases es, 3int,
{
    if takes_inline(dest, es, dynamic) {
        match spec_prepend_elems(dest, es) {
            Ok(d1) => {
                let with_len = if dynamic {
                    m_prepend_bits(d1, byte_bits(es.len() as u8))
                } else {
                    Ok(d1)
                };
                match with_len {
                    Ok(d2) => m_prepend_bits(d2, tag_inline()),
                    Err(e) => Err(e),
                }
            },
            Err(e) => Err(e),
        }
    } else {
        spec_spill(dest, es, dynamic)
    }
}

/// Model of the branch spill: the array is rebuilt in a fresh node, which
/// becomes the next child reference; only the branch tag lands in the
/// destination. A dynamic array too long for its length prefix cannot be
/// rebuilt anywhere and is refused.
pub open spec fn spec_spill(dest: NodeModel, es: Seq<ValueModel>, dynamic: bool) -> Result<
    NodeModel,
    EncodeError,
>
    decreases es, 2int,
{
    if dynamic && es.len() > 255 {
        Err(EncodeError::LengthOverflow)
    } else {
        match spec_force_node(es, dynamic) {
            Ok(child) => {
                if dest.kids.len() >= MAX_REFS {
                    Err(EncodeError::CapacityExceeded)
                } else {
                    m_prepend_bits(
                        NodeModel { bits: dest.bits, kids: seq![child] + dest.kids },
                        tag_branch(),
                    )
                }
            },
            Err(e) => Err(e),
        }
    }
}

/// Model of the content of a spilled node: the full inline form of the
/// array, built in a fresh node.
pub open spec fn spec_force_node(es: Seq<ValueModel>, dynamic: bool) -> Result<
    NodeModel,
    EncodeError,
>
    decreases es, 1int,
{
    match spec_prepend_elems(empty_node(), es) {
        Ok(d1) => {
            let with_len = if dynamic {
                m_prepend_bits(d1, byte_bits(es.len() as u8))
            } else {
                Ok(d1)
            };
            match with_len {
                Ok(d2) => m_prepend_bits(d2, tag_inline()),
                Err(e) => Err(e),
            }
        },
        Err(e) => Err(e),
    }
}

/// Model of chain assembly: elements are prepended from the last to the
/// first, so that the first element ends up earliest in final bit order.
pub open spec fn spec_prepend_elems(dest: NodeModel, es: Seq<ValueModel>) -> Result<
    NodeModel,
    EncodeError,
>
    decreases es, 0int,
{
    if es.len() == 0 {
        Ok(dest)
    } else {
        match spec_prepend_elems(dest, es.drop_first()) {
            Ok(d) => spec_prepend_value(d, es.first()),
            Err(e) => Err(e),
        }
    }
}

/// One step of `spec_prepend_elems` seen from the front of a suffix.
pub proof fn lemma_elems_skip_unfold(dest: NodeModel, vs: Seq<ValueModel>, j: int)
    requires
        0 <= j < vs.len(),
    ensures
        spec_prepend_elems(dest, vs.skip(j)) == (match spec_prepend_elems(dest, vs.skip(j + 1)) {
            Ok(d) => spec_prepend_value(d, vs[j]),
            Err(e) => Err(e),
        }),
{
    assert(vs.skip(j).len() > 0);
    assert(vs.skip(j).drop_first() =~= vs.skip(j + 1));
    assert(vs.skip(j).first() == vs[j]);
}

/// A failure while prepending a suffix of the elements is the failure of the
/// whole sequence.
pub proof fn lemma_elems_err_down(dest: NodeModel, vs: Seq<ValueModel>, j: int)
    requires
        0 <= j <= vs.len(),
        spec_prepend_elems(dest, vs.skip(j)) is Err,
    ensures
        spec_prepend_elems(dest, vs) == spec_prepend_elems(dest, vs.skip(j)),
    decreases j,
{
    if j == 0 {
        assert(vs.skip(0) =~= vs);
    } else {
        lemma_elems_skip_unfold(dest, vs, j - 1);
        lemma_elems_err_down(dest, vs, j - 1);
    }
}

/// Writes every element of the array, in sequence order, in front of what
/// the destination already holds: element `i` ends up immediately before
/// element `i + 1` in final bit order (chain assembly).
#[verifier::loop_isolation(false)]
pub fn prepend_array_items_to_chain(destination: Builder, array: &Vec<Value>) -> (r: Result<
    Builder,
    EncodeError,
>)
    ensures
        spec_prepend_elems(destination@, values_view(array@)) matches Ok(m) ==> (r matches Ok(b)
            && b@ == m),
        spec_prepend_elems(destination@, values_view(array@)) matches Err(e) ==> r == Err::<
            Builder,
            EncodeError,
        >(e),
    decreases *array, 0int,
{
    let ghost dest0 = destination@;
    let ghost vs = values_view(array@);
    proof {
        lemma_values_view(array@);
        assert(vs.skip(array@.len() as int) =~= Seq::empty());
    }
    let mut b = destination;
    let mut i: usize = array.len();
    while i > 0
        invariant
            i <= array@.len(),
            vs.len() == array@.len(),
            forall|k: int| 0 <= k < array@.len() ==> vs[k] == value_view(#[trigger] array@[k]),
            spec_prepend_elems(dest0, vs.skip(i as int)) == Ok::<NodeModel, EncodeError>(b@),
        decreases i,
    {
        i = i - 1;
        let r = prepend_value(b, &array[i]);
        proof {
            lemma_elems_skip_unfold(dest0, vs, i as int);
        }
        match r {
            Ok(nb) => {
                b = nb;
            },
            Err(e) => {
                proof {
                    lemma_elems_err_down(dest0, vs, i as int);
                }
                return Err(e);
            },
        }
    }
    proof {
        assert(vs.skip(0) =~= vs);
    }
    Ok(b)
}

/// Rebuilds the array in a fresh node, attaches that node as the next child
/// reference of the destination, and leaves only the 2-bit branch tag in the
/// destination's bits (branch spill). Fails with `CapacityExceeded` when the
/// destination already holds its full count of child references, and with
/// `LengthOverflow` when a dynamic array is longer than its one-byte length
/// prefix can say.
pub fn put_array_to_separate_branch(destination: Builder, array: &Vec<Value>, dynamic: bool) -> (r:
    Result<Builder, EncodeError>)
    ensures
        spec_spill(destination@, values_view(array@), dynamic) matches Ok(m) ==> (r matches Ok(b)
            && b@ == m),
        spec_spill(destination@, values_view(array@), dynamic) matches Err(e) ==> r == Err::<
            Builder,
            EncodeError,
        >(e),
    decreases *array, 2int,
{
    proof {
        lemma_values_view(array@);
    }
    if dynamic && array.len() > 255 {
        return Err(EncodeError::LengthOverflow);
    }
    let fresh = Builder::new();
    proof {
        assert(fresh@ =~= empty_node());
    }
    let d1 = match prepend_array_items_to_chain(fresh, array) {
        Ok(d) => d,
        Err(e) => {
            return Err(e);
        },
    };
    let d2 = if dynamic {
        match d1.prepend_u8(array.len() as u8) {
            Ok(d) => d,
            Err(e) => {
                return Err(e);
            },
        }
    } else {
        d1
    };
    let mut tagv: Vec<bool> = Vec::new();
    tagv.push(true);
    tagv.push(false);
    proof {
        assert(tagv@ =~= tag_inline());
    }
    let d3 = match d2.prepend_raw(tagv) {
        Ok(d) => d,
        Err(e) => {
            return Err(e);
        },
    };
    let child = d3.finalize();
    let dest2 = match destination.attach_child(child) {
        Ok(d) => d,
        Err(e) => {
            return Err(e);
        },
    };
    let mut tagb: Vec<bool> = Vec::new();
    tagb.push(false);
    tagb.push(false);
    proof {
        assert(tagb@ =~= tag_branch());
    }
    match dest2.prepend_raw(tagb) {
        Ok(d) => Ok(d),
        Err(e) => Err(e),
    }
}

/// Places the array: inline when it fits, into a separate branch when it
/// does not (the placement decision).
fn prepend_array(destination: Builder, array: &Vec<Value>, dynamic: bool) -> (r: Result<
    Builder,
    EncodeError,
>)
    ensures
        spec_prepend_array(destination@, values_view(array@), dynamic) matches Ok(m) ==> (r
            matches Ok(b) && b@ == m),
        spec_prepend_array(destination@, values_view(array@), dynamic) matches Err(e) ==> r
            == Err::<Builder, EncodeError>(e),
    decreases *array, 3int,
{
    proof {
        lemma_values_view(array@);
    }
    let base: usize = if dynamic {
        8
    } else {
        0
    };
    let capped = crate::value::sum_sizes_capped(array, base);
    let used = destination.bits_used();
    let inline_ok = (!dynamic || array.len() <= 255) && capped <= BIT_CAPACITY - 2 && used
        <= BIT_CAPACITY - 2 - capped;
    proof {
        assert(inline_ok == takes_inline(destination@, values_view(array@), dynamic));
    }
    if inline_ok {
        let d1 = match prepend_array_items_to_chain(destination, array) {
            Ok(d) => d,
            Err(e) => {
                return Err(e);
            },
        };
        let d2 = if dynamic {
            match d1.prepend_u8(array.len() as u8) {
                Ok(d) => d,
                Err(e) => {
                    return Err(e);
                },
            }
        } else {
            d1
        };
        let mut tagv: Vec<bool> = Vec::new();
        tagv.push(true);
        tagv.push(false);
        proof {
            assert(tagv@ =~= tag_inline());
        }
        match d2.prepend_raw(tagv) {
            Ok(d) => Ok(d),
            Err(e) => Err(e),
        }
    } else {
        put_array_to_separate_branch(destination, array, dynamic)
    }
}

/// Writes one value in front of everything the destination already holds;
/// scalars are written raw, arrays go through the placement decision.
pub fn prepend_value(destination: Builder, value: &Value) -> (r: Result<Builder, EncodeError>)
    ensures
        spec_prepend_value(destination@, value@) matches Ok(m) ==> (r matches Ok(b) && b@ == m),
        spec_prepend_value(destination@, value@) matches Err(e) ==> r == Err::<
            Builder,
            EncodeError,
        >(e),
    decreases *value, 4int,
{
    match value {
        Value::Bool(b) => destination.prepend_bit(*b),
        Value::Byte(x) => destination.prepend_u8(*x),
        Value::Dyn(es) => prepend_array(destination, es, true),
        Value::Fixed(es) => prepend_array(destination, es, false),
    }
}

/// Places a dynamic array: inline behind the tag and the one-byte length
/// when it fits the destination, into a separate branch otherwise.
pub fn prepend_dynamic_array(destination: Builder, array: &Vec<Value>) -> (r: Result<
    Builder,
    EncodeError,
>)
    ensures
        spec_prepend_array(destination@, values_view(array@), true) matches Ok(m) ==> (r matches
            Ok(b) && b@ == m),
        spec_prepend_array(destination@, values_view(array@), true) matches Err(e) ==> r == Err::<
            Builder,
            EncodeError,
        >(e),
{
    prepend_array(destination, array, true)
}

/// Places a fixed-length array: as `prepend_dynamic_array`, but no length is
/// written and no length bound applies.
pub fn prepend_fixed_array(destination: Builder, array: &Vec<Value>) -> (r: Result<
    Builder,
    EncodeError,
>)
    ensures
        spec_prepend_array(destination@, values_view(array@), false) matches Ok(m) ==> (r matches
            Ok(b) && b@ == m),
        spec_prepend_array(destination@, values_view(array@), false) matches Err(e) ==> r == Err::<
            Builder,
            EncodeError,
        >(e),
{
    prepend_array(destination, array, false)
}

} // verus!
