//! The laws of the codec, stated over the encode model (`codec`) and the
//! decode relation (`decode`) and proved once and for all: the round trip,
//! the exactness of the size estimate on the inline path, the length
//! boundary of dynamic arrays, and the failure on exhausted reference slots.
use vstd::prelude::*;

use crate::codec::empty_node;
use crate::codec::spec_force_node;
use crate::codec::spec_prepend_array;
use crate::codec::spec_prepend_elems;
use crate::codec::spec_prepend_value;
use crate::codec::tag_branch;
use crate::codec::tag_inline;
use crate::codec::takes_inline;
use crate::decode::decodes;
use crate::decode::empty_stream;
use crate::decode::lemma_byte_val_bits;
use crate::decode::lemma_chain_cons;
use crate::decode::lemma_inline_dyn_intro;
use crate::decode::lemma_inline_fixed_intro;
use crate::node::BIT_CAPACITY;
use crate::node::byte_bits;
use crate::node::MAX_REFS;
use crate::node::model_wf;
use crate::node::NodeModel;
use crate::node::stream_of;
use crate::node::StreamModel;
use crate::value::all_have_type;
use crate::value::has_type;
use crate::value::lemma_size_of_bounds;
use crate::value::lemma_size_of_seq_bounds;
use crate::value::size_of;
use crate::value::size_of_seq;
use crate::value::TypeModel;
use crate::value::ValueModel;
use crate::EncodeError;

verus! {

/// The element chain read back from what chain assembly wrote: element `i`
/// decodes at position `i`, and the chain ends exactly where the
/// destination's earlier content begins.
pub proof fn lemma_round_trip_elems(dest: NodeModel, es: Seq<ValueModel>, et: TypeModel) -> (ss:
    Seq<StreamModel>)
    requires
        all_have_type(es, et),
        spec_prepend_elems(dest, es) is Ok,
    ensures
        ss.len() == es.len() + 1,
        ss.first() == stream_of(spec_prepend_elems(dest, es)->Ok_0),
        ss.last() == (StreamModel { bits: dest.bits, kids: dest.kids }),
        forall|i: int| 0 <= i < es.len() ==> decodes(#[trigger] ss[i], et, es[i], ss[i + 1]),
    decreases es, 0int,
{
    if es.len() == 0 {
        let ss = seq![StreamModel { bits: dest.bits, kids: dest.kids }];
        assert(ss.first() == ss.last());
        ss
    } else {
        let d_mid = spec_prepend_elems(dest, es.drop_first())->Ok_0;
        let d = spec_prepend_value(d_mid, es.first())->Ok_0;
        let ss_rest = lemma_round_trip_elems(dest, es.drop_first(), et);
        lemma_round_trip(d_mid, es.first(), et);
        let ss = lemma_chain_cons(
            et,
            stream_of(d),
            es.first(),
            stream_of(d_mid),
            es.drop_first(),
            ss_rest,
        );
        assert(seq![es.first()] + es.drop_first() =~= es);
        assert forall|i: int| 0 <= i < es.len() implies decodes(
            #[trigger] ss[i],
            et,
            es[i],
            ss[i + 1],
        ) by {
            assert(decodes(ss[i], et, (seq![es.first()] + es.drop_first())[i], ss[i + 1]));
        }
        ss
    }
}

/// Reading back the inline form — tag, length for a dynamic array, elements —
/// gives the array and lands exactly on the destination's earlier content.
pub proof fn lemma_round_trip_inline(
    dest: NodeModel,
    es: Seq<ValueModel>,
    et: TypeModel,
    dynamic: bool,
    d1: NodeModel,
    f: NodeModel,
)
    requires
        all_have_type(es, et),
        dynamic ==> es.len() <= 255,
        spec_prepend_elems(dest, es) == Ok::<NodeModel, EncodeError>(d1),
        f == (NodeModel {
            bits: tag_inline() + (if dynamic {
                byte_bits(es.len() as u8)
            } else {
                Seq::<bool>::empty()
            }) + d1.bits,
            kids: d1.kids,
        }),
    ensures
        decodes(
            stream_of(f),
            if dynamic {
                TypeModel::Dyn(Box::new(et))
            } else {
                TypeModel::Fixed(Box::new(et), es.len())
            },
            if dynamic {
                ValueModel::Dyn(es)
            } else {
                ValueModel::Fixed(es)
            },
            StreamModel { bits: dest.bits, kids: dest.kids },
        ),
    decreases es, 1int,
{
    let ss = lemma_round_trip_elems(dest, es, et);
    let s = stream_of(f);
    let rest = StreamModel { bits: dest.bits, kids: dest.kids };
    assert(s.bits.take(2) =~= tag_inline());
    if dynamic {
        let lb = byte_bits(es.len() as u8);
        assert(lb.len() == 8);
        assert(s.bits.len() >= 10);
        assert(s.bits.skip(2).take(8) =~= lb);
        lemma_byte_val_bits(es.len() as u8);
        assert(s.bits.skip(10) =~= d1.bits);
        assert(ss.first() == (StreamModel { bits: s.bits.skip(10), kids: s.kids }));
        lemma_inline_dyn_intro(s, et, es, ss, rest);
    } else {
        assert(s.bits.skip(2) =~= d1.bits);
        assert(ss.first() == (StreamModel { bits: s.bits.skip(2), kids: s.kids }));
        lemma_inline_fixed_intro(s, et, es.len(), es, ss, rest);
    }
}

/// Round trip: whatever the encoder wrote in front of the destination —
/// inline or spilled into a branch, at any nesting depth — decodes back to
/// the very value it was given, and leaves the cursor exactly where the
/// destination's earlier content begins.
pub proof fn lemma_round_trip(dest: NodeModel, v: ValueModel, t: TypeModel)
    requires
        has_type(v, t),
        spec_prepend_value(dest, v) is Ok,
    ensures
        decodes(
            stream_of(spec_prepend_value(dest, v)->Ok_0),
            t,
            v,
            StreamModel { bits: dest.bits, kids: dest.kids },
        ),
    decreases v, 3int,
{
    let f = spec_prepend_value(dest, v)->Ok_0;
    match v {
        ValueModel::Bool(b) => {
            assert(f.bits.drop_first() =~= dest.bits);
            assert(f.bits[0] == b);
        },
        ValueModel::Byte(x) => {
            assert(f.bits.take(8) =~= byte_bits(x));
            assert(f.bits.skip(8) =~= dest.bits);
        },
        ValueModel::Dyn(es) => {
            let bx = t->Dyn_0;
            lemma_round_trip_array(dest, es, *bx, true, f);
            assert(t == TypeModel::Dyn(Box::new(*bx)));
        },
        ValueModel::Fixed(es) => {
            let bx = t->Fixed_0;
            lemma_round_trip_array(dest, es, *bx, false, f);
            assert(t == TypeModel::Fixed(Box::new(*bx), es.len()));
        },
    }
}

/// The array half of the round trip, covering both placements.
proof fn lemma_round_trip_array(
    dest: NodeModel,
    es: Seq<ValueModel>,
    et: TypeModel,
    dynamic: bool,
    f: NodeModel,
)
    requires
        all_have_type(es, et),
        spec_prepend_array(dest, es, dynamic) == Ok::<NodeModel, EncodeError>(f),
    ensures
        decodes(
            stream_of(f),
            if dynamic {
                TypeModel::Dyn(Box::new(et))
            } else {
                TypeModel::Fixed(Box::new(et), es.len())
            },
            if dynamic {
                ValueModel::Dyn(es)
            } else {
                ValueModel::Fixed(es)
            },
            StreamModel { bits: dest.bits, kids: dest.kids },
        ),
    decreases es, 2int,
{
    let t = if dynamic {
        TypeModel::Dyn(Box::new(et))
    } else {
        TypeModel::Fixed(Box::new(et), es.len())
    };
    let vv = if dynamic {
        ValueModel::Dyn(es)
    } else {
        ValueModel::Fixed(es)
    };
    if takes_inline(dest, es, dynamic) {
        let d1 = spec_prepend_elems(dest, es)->Ok_0;
        assert(f.bits =~= tag_inline() + (if dynamic {
            byte_bits(es.len() as u8)
        } else {
            Seq::<bool>::empty()
        }) + d1.bits);
        assert(f.kids == d1.kids);
        lemma_round_trip_inline(
            dest,
            es,
            et,
            dynamic,
            d1,
            NodeModel {
                bits: tag_inline() + (if dynamic {
                    byte_bits(es.len() as u8)
                } else {
                    Seq::<bool>::empty()
                }) + d1.bits,
                kids: d1.kids,
            },
        );
    } else {
        let child = spec_force_node(es, dynamic)->Ok_0;
        let d1 = spec_prepend_elems(empty_node(), es)->Ok_0;
        assert(child.bits =~= tag_inline() + (if dynamic {
            byte_bits(es.len() as u8)
        } else {
            Seq::<bool>::empty()
        }) + d1.bits);
        assert(child.kids == d1.kids);
        lemma_round_trip_inline(
            empty_node(),
            es,
            et,
            dynamic,
            d1,
            NodeModel {
                bits: tag_inline() + (if dynamic {
                    byte_bits(es.len() as u8)
                } else {
                    Seq::<bool>::empty()
                }) + d1.bits,
                kids: d1.kids,
            },
        );
        assert(child == (NodeModel {
            bits: tag_inline() + (if dynamic {
                byte_bits(es.len() as u8)
            } else {
                Seq::<bool>::empty()
            }) + d1.bits,
            kids: d1.kids,
        }));
        assert(decodes(stream_of(child), t, vv, empty_stream())) by {
            assert((StreamModel {
                bits: empty_node().bits,
                kids: empty_node().kids,
            }) =~= empty_stream());
        }
        let s = stream_of(f);
        assert(s.bits.take(2) =~= tag_branch());
        assert(s.bits.take(2) != tag_inline()) by {
            assert(tag_inline()[0] != tag_branch()[0]);
        }
        assert(s.kids[0] == child);
        assert(s.bits.skip(2) =~= dest.bits);
        assert(s.kids.drop_first() =~= dest.kids);
        assert(decodes(s, t, vv, StreamModel { bits: dest.bits, kids: dest.kids }));
    }
}

/// Each successfully placed value grows the destination's bits by exactly
/// its in-place size, provided that size still fits the node.
pub proof fn lemma_exact_value(dest: NodeModel, v: ValueModel)
    requires
        spec_prepend_value(dest, v) is Ok,
        dest.bits.len() + size_of(v) <= BIT_CAPACITY,
    ensures
        spec_prepend_value(dest, v)->Ok_0.bits.len() == dest.bits.len() + size_of(v),
    decreases v, 1int,
{
    match v {
        ValueModel::Bool(_) => {},
        ValueModel::Byte(_) => {},
        ValueModel::Dyn(es) => {
            lemma_exact_array(dest, es, true);
        },
        ValueModel::Fixed(es) => {
            lemma_exact_array(dest, es, false);
        },
    }
}

proof fn lemma_exact_array(dest: NodeModel, es: Seq<ValueModel>, dynamic: bool)
    requires
        spec_prepend_array(dest, es, dynamic) is Ok,
        dest.bits.len() + size_of(
            if dynamic {
                ValueModel::Dyn(es)
            } else {
                ValueModel::Fixed(es)
            },
        ) <= BIT_CAPACITY,
    ensures
        spec_prepend_array(dest, es, dynamic)->Ok_0.bits.len() == dest.bits.len() + size_of(
            if dynamic {
                ValueModel::Dyn(es)
            } else {
                ValueModel::Fixed(es)
            },
        ),
    decreases es, 1int,
{
    let p = (if dynamic {
        8int
    } else {
        0int
    }) + size_of_seq(es);
    lemma_size_of_seq_bounds(es);
    if p <= BIT_CAPACITY {
        if dynamic && es.len() > 255 {
            assert(!takes_inline(dest, es, dynamic));
            assert(spec_prepend_array(dest, es, dynamic) is Err);
        } else {
            assert(takes_inline(dest, es, dynamic));
            lemma_exact_elems(dest, es);
        }
    } else {
        assert(!takes_inline(dest, es, dynamic));
    }
}

/// Chain assembly grows the destination's bits by exactly the sum of the
/// element sizes, provided the whole inline form fits.
pub proof fn lemma_exact_elems(dest: NodeModel, es: Seq<ValueModel>)
    requires
        spec_prepend_elems(dest, es) is Ok,
        dest.bits.len() + size_of_seq(es) <= BIT_CAPACITY - 2,
    ensures
        spec_prepend_elems(dest, es)->Ok_0.bits.len() == dest.bits.len() + size_of_seq(es),
    decreases es, 0int,
{
    if es.len() > 0 {
        lemma_size_of_bounds(es.first());
        lemma_size_of_seq_bounds(es.drop_first());
        lemma_exact_elems(dest, es.drop_first());
        let d_mid = spec_prepend_elems(dest, es.drop_first())->Ok_0;
        lemma_exact_value(d_mid, es.first());
    }
}

/// Size fidelity: whenever the inline placement is taken, the number of bits
/// actually written equals the array's in-place size estimate. Any mismatch
/// would desynchronize every later write, so this is a hard law, not a hint.
pub proof fn lemma_size_fidelity(dest: NodeModel, es: Seq<ValueModel>, dynamic: bool)
    requires
        takes_inline(dest, es, dynamic),
        spec_prepend_array(dest, es, dynamic) is Ok,
    ensures
        spec_prepend_array(dest, es, dynamic)->Ok_0.bits.len() == dest.bits.len() + size_of(
            if dynamic {
                ValueModel::Dyn(es)
            } else {
                ValueModel::Fixed(es)
            },
        ),
{
    lemma_size_of_seq_bounds(es);
    lemma_exact_array(dest, es, dynamic);
}

/// Boundary of the one-byte length prefix: a dynamic array of more than 255
/// elements is never placed inline — the placement decision is a branch
/// spill whatever the destination looks like — and the spill then reports
/// `LengthOverflow`, since the length cannot be written in the child either.
/// A dynamic array of up to 255 elements whose inline form fits the
/// destination's remaining bits is placed inline.
pub proof fn lemma_length_boundary(dest: NodeModel, es: Seq<ValueModel>)
    ensures
        es.len() > 255 ==> !takes_inline(dest, es, true) && spec_prepend_array(dest, es, true)
            == Err::<NodeModel, EncodeError>(EncodeError::LengthOverflow),
        es.len() <= 255 && dest.bits.len() + 8 + size_of_seq(es) + 2 <= BIT_CAPACITY
            ==> takes_inline(dest, es, true),
{
    lemma_size_of_seq_bounds(es);
}

/// Capacity exhaustion: an array that must spill into a destination already
/// holding its full count of child references fails with `CapacityExceeded`.
/// The failed call hands back no builder at all, so no partially written
/// destination is ever observable.
pub proof fn lemma_capacity_exhaustion(dest: NodeModel, es: Seq<ValueModel>, dynamic: bool)
    requires
        !takes_inline(dest, es, dynamic),
        !(dynamic && es.len() > 255),
        spec_force_node(es, dynamic) is Ok,
        dest.kids.len() >= MAX_REFS,
    ensures
        spec_prepend_array(dest, es, dynamic) == Err::<NodeModel, EncodeError>(
            EncodeError::CapacityExceeded,
        ),
{
}

/// The node invariant is preserved: starting from a well-formed builder —
/// bits within capacity, at most the allowed child references, all children
/// well-formed — every successful placement yields a well-formed builder,
/// and every node the encoder builds along the way respects the bounds.
pub proof fn lemma_wf_preserved(dest: NodeModel, v: ValueModel)
    requires
        model_wf(dest),
        spec_prepend_value(dest, v) is Ok,
    ensures
        model_wf(spec_prepend_value(dest, v)->Ok_0),
    decreases v, 1int,
{
    let f = spec_prepend_value(dest, v)->Ok_0;
    match v {
        ValueModel::Bool(_) => {
            assert(f.kids == dest.kids);
        },
        ValueModel::Byte(_) => {
            assert(f.kids == dest.kids);
        },
        ValueModel::Dyn(es) => {
            lemma_wf_array(dest, es, true);
        },
        ValueModel::Fixed(es) => {
            lemma_wf_array(dest, es, false);
        },
    }
}

proof fn lemma_wf_array(dest: NodeModel, es: Seq<ValueModel>, dynamic: bool)
    requires
        model_wf(dest),
        spec_prepend_array(dest, es, dynamic) is Ok,
    ensures
        model_wf(spec_prepend_array(dest, es, dynamic)->Ok_0),
    decreases es, 2int,
{
    if takes_inline(dest, es, dynamic) {
        lemma_wf_elems(dest, es);
        let d1 = spec_prepend_elems(dest, es)->Ok_0;
        let f = spec_prepend_array(dest, es, dynamic)->Ok_0;
        assert(f.kids == d1.kids);
    } else {
        assert(model_wf(empty_node()));
        lemma_wf_elems(empty_node(), es);
        let d1 = spec_prepend_elems(empty_node(), es)->Ok_0;
        let child = spec_force_node(es, dynamic)->Ok_0;
        assert(child.kids == d1.kids);
        assert(model_wf(child));
        let f = spec_prepend_array(dest, es, dynamic)->Ok_0;
        assert(f.kids == seq![child] + dest.kids);
        assert(dest.kids.len() < MAX_REFS);
        assert forall|i: int| 0 <= i < f.kids.len() implies model_wf(#[trigger] f.kids[i]) by {
            if i > 0 {
                assert(f.kids[i] == dest.kids[i - 1]);
            }
        }
    }
}

proof fn lemma_wf_elems(dest: NodeModel, es: Seq<ValueModel>)
    requires
        model_wf(dest),
        spec_prepend_elems(dest, es) is Ok,
    ensures
        model_wf(spec_prepend_elems(dest, es)->Ok_0),
    decreases es, 0int,
{
    if es.len() > 0 {
        lemma_wf_elems(dest, es.drop_first());
        let d_mid = spec_prepend_elems(dest, es.drop_first())->Ok_0;
        lemma_wf_preserved(d_mid, es.first());
    }
}

} // verus!


