//! Decoding: the mirror of the encoder. A cursor is advanced through the
//! placement tag, the length (for a dynamic array) and the elements; when
//! the branch tag is met, the next child reference is opened with a fresh
//! cursor and the same rule applies inside it, while the parent cursor moves
//! past the reference slot only.
//!
//! `decodes` is the mathematical statement of what a successful decode
//! means. The executable readers are proved sound (whatever they return
//! satisfies `decodes`) and complete (they fail only on input that no value
//! decodes from); `decodes` itself is deterministic (`laws`).
use vstd::prelude::*;

use crate::node::byte_bits;
use crate::node::Cursor;
use crate::node::NodeModel;
use crate::node::stream_of;
use crate::node::StreamModel;
use crate::codec::tag_branch;
use crate::codec::tag_inline;
use crate::value::ElemType;
use crate::value::lemma_values_view;
use crate::value::value_view;
use crate::value::type_view;
use crate::value::TypeModel;
use crate::value::Value;
use crate::value::ValueModel;
use crate::value::values_view;
use crate::DecodeError;
use crate::DecodeErrorKind;

verus! {

/// 1 for a set bit, 0 for a clear one.
pub open spec fn bit1(b: bool) -> int {
    if b {
        1
    } else {
        0
    }
}

/// The byte whose bits, most significant first, are the first eight of `bs`.
pub open spec fn byte_val(bs: Seq<bool>) -> u8 {
    (bit1(bs[0]) * 128 + bit1(bs[1]) * 64 + bit1(bs[2]) * 32 + bit1(bs[3]) * 16 + bit1(bs[4]) * 8
        + bit1(bs[5]) * 4 + bit1(bs[6]) * 2 + bit1(bs[7])) as u8
}

/// Reading back the bits of a byte gives the byte.
pub proof fn lemma_byte_val_bits(x: u8)
    ensures
        byte_val(byte_bits(x)) == x,
{
    assert forall|s: u8| s < 8 implies (#[trigger] (x >> s)) & 1u8 <= 1u8 by {
        assert((x >> s) & 1u8 <= 1u8) by (bit_vector);
    }
    assert(x == ((x >> 7u8) & 1) * 128 + ((x >> 6u8) & 1) * 64 + ((x >> 5u8) & 1) * 32 + ((x
        >> 4u8) & 1) * 16 + ((x >> 3u8) & 1) * 8 + ((x >> 2u8) & 1) * 4 + ((x >> 1u8) & 1) * 2 + ((
    x >> 0u8) & 1)) by (bit_vector);
    assert(byte_bits(x)[0] == ((x >> 7u8) & 1u8 == 1u8));
    assert(byte_bits(x)[1] == ((x >> 6u8) & 1u8 == 1u8));
    assert(byte_bits(x)[2] == ((x >> 5u8) & 1u8 == 1u8));
    assert(byte_bits(x)[3] == ((x >> 4u8) & 1u8 == 1u8));
    assert(byte_bits(x)[4] == ((x >> 3u8) & 1u8 == 1u8));
    assert(byte_bits(x)[5] == ((x >> 2u8) & 1u8 == 1u8));
    assert(byte_bits(x)[6] == ((x >> 1u8) & 1u8 == 1u8));
    assert(byte_bits(x)[7] == ((x >> 0u8) & 1u8 == 1u8));
}

/// Two bytes with the same bits are the same byte.
pub proof fn lemma_byte_bits_injective(x: u8, y: u8)
    requires
        byte_bits(x) == byte_bits(y),
    ensures
        x == y,
{
    lemma_byte_val_bits(x);
    lemma_byte_val_bits(y);
}

/// The stream left when a node has been read to its very end.
pub open spec fn empty_stream() -> StreamModel {
    StreamModel { bits: Seq::empty(), kids: Seq::empty() }
}

/// What it means for the stream `s` to decode, at type `t`, into the value
/// `v`, leaving `rest` unread. A spilled node holds exactly the array it was
/// built for, so following a branch tag must consume the child completely. Scalars are raw bits. An array starts with
/// the 2-bit placement tag: after the inline tag come the one-byte length
/// (dynamic arrays only) and the elements in order; after the branch tag the
/// array is decoded from the next child reference, and only that reference
/// slot is consumed from `s`.
pub open spec fn decodes(s: StreamModel, t: TypeModel, v: ValueModel, rest: StreamModel) -> bool
    decreases t, s.kids,
{
    match t {
        TypeModel::Bool => {
            &&& s.bits.len() >= 1
            &&& v == ValueModel::Bool(s.bits[0])
            &&& rest == (StreamModel { bits: s.bits.drop_first(), kids: s.kids })
        },
        TypeModel::Byte => {
            &&& s.bits.len() >= 8
            &&& v matches ValueModel::Byte(x) && byte_bits(x) == s.bits.take(8)
            &&& rest == (StreamModel { bits: s.bits.skip(8), kids: s.kids })
        },
        TypeModel::Dyn(et) => {
            &&& s.bits.len() >= 2
            &&& if s.bits.take(2) == tag_inline() {
                &&& s.bits.len() >= 10
                &&& v matches ValueModel::Dyn(vs) && vs.len() == byte_val(s.bits.skip(2).take(8))
                    && exists|ss: Seq<StreamModel>|
                    {
                        &&& ss.len() == vs.len() + 1
                        &&& ss.first() == (StreamModel { bits: s.bits.skip(10), kids: s.kids })
                        &&& ss.last() == rest
                        &&& forall|i: int|
                            0 <= i < vs.len() ==> decodes(#[trigger] ss[i], *et, vs[i], ss[i + 1])
                    }
            } else if s.bits.take(2) == tag_branch() {
                &&& s.kids.len() >= 1
                &&& decodes(stream_of(s.kids[0]), t, v, empty_stream())
                &&& rest == (StreamModel {
                    bits: s.bits.skip(2),
                    kids: s.kids.drop_first(),
                })
            } else {
                false
            }
        },
        TypeModel::Fixed(et, n) => {
            &&& s.bits.len() >= 2
            &&& if s.bits.take(2) == tag_inline() {
                &&& v matches ValueModel::Fixed(vs) && vs.len() == n && exists|
                    ss: Seq<StreamModel>,
                |
                    {
                        &&& ss.len() == vs.len() + 1
                        &&& ss.first() == (StreamModel { bits: s.bits.skip(2), kids: s.kids })
                        &&& ss.last() == rest
                        &&& forall|i: int|
                            0 <= i < vs.len() ==> decodes(#[trigger] ss[i], *et, vs[i], ss[i + 1])
                    }
            } else if s.bits.take(2) == tag_branch() {
                &&& s.kids.len() >= 1
                &&& decodes(stream_of(s.kids[0]), t, v, empty_stream())
                &&& rest == (StreamModel {
                    bits: s.bits.skip(2),
                    kids: s.kids.drop_first(),
                })
            } else {
                false
            }
        },
    }
}

/// `t` is an array type with elements of type `et`.
pub open spec fn is_array_of(t: TypeModel, et: TypeModel) -> bool {
    ||| (t matches TypeModel::Dyn(b) && *b == et)
    ||| (t matches TypeModel::Fixed(b, n) && *b == et)
}




/// Decoding is deterministic: from one stream, at one type, at most one
/// value can be read, and the cursor lands in exactly one place.
#[verifier::rlimit(100)]
pub proof fn lemma_decodes_deterministic(
    s: StreamModel,
    t: TypeModel,
    v1: ValueModel,
    r1: StreamModel,
    v2: ValueModel,
    r2: StreamModel,
)
    requires
        decodes(s, t, v1, r1),
        decodes(s, t, v2, r2),
    ensures
        v1 == v2,
        r1 == r2,
    decreases t, s.kids, 1int, 0int,
{
    match t {
        TypeModel::Bool => {},
        TypeModel::Byte => {
            let x1 = v1->Byte_0;
            let x2 = v2->Byte_0;
            lemma_byte_bits_injective(x1, x2);
        },
        TypeModel::Dyn(et) => {
            if s.bits.take(2) == tag_inline() {
                let vs1 = v1->Dyn_0;
                let vs2 = v2->Dyn_0;
                let mid = StreamModel { bits: s.bits.skip(10), kids: s.kids };
                let ss1 = choose|ss: Seq<StreamModel>|
                    {
                        &&& ss.len() == vs1.len() + 1
                        &&& ss.first() == mid
                        &&& ss.last() == r1
                        &&& forall|i: int|
                            0 <= i < vs1.len() ==> decodes(#[trigger] ss[i], *et, vs1[i], ss[i + 1])
                    };
                let ss2 = choose|ss: Seq<StreamModel>|
                    {
                        &&& ss.len() == vs2.len() + 1
                        &&& ss.first() == mid
                        &&& ss.last() == r2
                        &&& forall|i: int|
                            0 <= i < vs2.len() ==> decodes(#[trigger] ss[i], *et, vs2[i], ss[i + 1])
                    };
                lemma_chain_deterministic(*et, vs1, ss1, vs2, ss2, t, s.kids);
            } else {
                lemma_decodes_deterministic(
                    stream_of(s.kids[0]),
                    t,
                    v1,
                    empty_stream(),
                    v2,
                    empty_stream(),
                );
            }
        },
        TypeModel::Fixed(et, n) => {
            if s.bits.take(2) == tag_inline() {
                let vs1 = v1->Fixed_0;
                let vs2 = v2->Fixed_0;
                let mid = StreamModel { bits: s.bits.skip(2), kids: s.kids };
                let ss1 = choose|ss: Seq<StreamModel>|
                    {
                        &&& ss.len() == vs1.len() + 1
                        &&& ss.first() == mid
                        &&& ss.last() == r1
                        &&& forall|i: int|
                            0 <= i < vs1.len() ==> decodes(#[trigger] ss[i], *et, vs1[i], ss[i + 1])
                    };
                let ss2 = choose|ss: Seq<StreamModel>|
                    {
                        &&& ss.len() == vs2.len() + 1
                        &&& ss.first() == mid
                        &&& ss.last() == r2
                        &&& forall|i: int|
                            0 <= i < vs2.len() ==> decodes(#[trigger] ss[i], *et, vs2[i], ss[i + 1])
                    };
                lemma_chain_deterministic(*et, vs1, ss1, vs2, ss2, t, s.kids);
            } else {
                lemma_decodes_deterministic(
                    stream_of(s.kids[0]),
                    t,
                    v1,
                    empty_stream(),
                    v2,
                    empty_stream(),
                );
            }
        },
    }
}

/// Two element chains with the same start decode the same elements and pass
/// through the same streams. The last two parameters only anchor the
/// termination measure of the mutual induction with
/// `lemma_decodes_deterministic`.
pub proof fn lemma_chain_deterministic(
    et: TypeModel,
    vs1: Seq<ValueModel>,
    ss1: Seq<StreamModel>,
    vs2: Seq<ValueModel>,
    ss2: Seq<StreamModel>,
    t: TypeModel,
    anchor: Seq<NodeModel>,
)
    requires
        is_array_of(t, et),
        vs1.len() == vs2.len(),
        ss1.len() == vs1.len() + 1,
        ss2.len() == vs2.len() + 1,
        ss1.first() == ss2.first(),
        forall|i: int| 0 <= i < vs1.len() ==> decodes(#[trigger] ss1[i], et, vs1[i], ss1[i + 1]),
        forall|i: int| 0 <= i < vs2.len() ==> decodes(#[trigger] ss2[i], et, vs2[i], ss2[i + 1]),
    ensures
        vs1 == vs2,
        ss1 == ss2,
    decreases t, anchor, 0int, vs1.len(),
{
    if vs1.len() == 0 {
        assert(vs1 =~= vs2);
        assert(ss1 =~= ss2);
    } else {
        lemma_decodes_deterministic(ss1[0], et, vs1[0], ss1[1], vs2[0], ss2[1]);
        let tl1 = ss1.drop_first();
        let tl2 = ss2.drop_first();
        assert forall|i: int|
            0 <= i < vs1.drop_first().len() implies decodes(
            #[trigger] tl1[i],
            et,
            vs1.drop_first()[i],
            tl1[i + 1],
        ) by {
            assert(tl1[i] == ss1[i + 1]);
            assert(tl1[i + 1] == ss1[i + 2]);
            assert(vs1.drop_first()[i] == vs1[i + 1]);
        }
        assert forall|i: int|
            0 <= i < vs2.drop_first().len() implies decodes(
            #[trigger] tl2[i],
            et,
            vs2.drop_first()[i],
            tl2[i + 1],
        ) by {
            assert(tl2[i] == ss2[i + 1]);
            assert(tl2[i + 1] == ss2[i + 2]);
            assert(vs2.drop_first()[i] == vs2[i + 1]);
        }
        lemma_chain_deterministic(et, vs1.drop_first(), tl1, vs2.drop_first(), tl2, t, anchor);
        assert forall|i: int| 0 <= i < vs1.len() implies vs1[i] == vs2[i] by {
            if i > 0 {
                assert(vs1[i] == vs1.drop_first()[i - 1]);
                assert(vs2[i] == vs2.drop_first()[i - 1]);
            }
        }
        assert forall|i: int| 0 <= i < ss1.len() implies ss1[i] == ss2[i] by {
            if i > 0 {
                assert(ss1[i] == tl1[i - 1]);
                assert(ss2[i] == tl2[i - 1]);
            }
        }
        assert(vs1 =~= vs2);
        assert(ss1 =~= ss2);
    }
}


/// Introduces an inline dynamic-array decode from an explicit element chain.
pub proof fn lemma_inline_dyn_intro(
    s: StreamModel,
    et: TypeModel,
    vs: Seq<ValueModel>,
    ss: Seq<StreamModel>,
    rest: StreamModel,
)
    requires
        s.bits.len() >= 10,
        s.bits.take(2) == tag_inline(),
        vs.len() == byte_val(s.bits.skip(2).take(8)),
        ss.len() == vs.len() + 1,
        ss.first() == (StreamModel { bits: s.bits.skip(10), kids: s.kids }),
        ss.last() == rest,
        forall|i: int| 0 <= i < vs.len() ==> decodes(#[trigger] ss[i], et, vs[i], ss[i + 1]),
    ensures
        decodes(s, TypeModel::Dyn(Box::new(et)), ValueModel::Dyn(vs), rest),
{
    let t = TypeModel::Dyn(Box::new(et));
    assert(s.bits.take(2) != tag_branch()) by {
        assert(tag_inline()[0] != tag_branch()[0]);
    }
    assert(decodes(s, t, ValueModel::Dyn(vs), rest));
}

/// Introduces an inline fixed-array decode from an explicit element chain.
pub proof fn lemma_inline_fixed_intro(
    s: StreamModel,
    et: TypeModel,
    n: nat,
    vs: Seq<ValueModel>,
    ss: Seq<StreamModel>,
    rest: StreamModel,
)
    requires
        s.bits.len() >= 2,
        s.bits.take(2) == tag_inline(),
        vs.len() == n,
        ss.len() == vs.len() + 1,
        ss.first() == (StreamModel { bits: s.bits.skip(2), kids: s.kids }),
        ss.last() == rest,
        forall|i: int| 0 <= i < vs.len() ==> decodes(#[trigger] ss[i], et, vs[i], ss[i + 1]),
    ensures
        decodes(s, TypeModel::Fixed(Box::new(et), n), ValueModel::Fixed(vs), rest),
{
    let t = TypeModel::Fixed(Box::new(et), n);
    assert(s.bits.take(2) != tag_branch()) by {
        assert(tag_inline()[0] != tag_branch()[0]);
    }
    assert(decodes(s, t, ValueModel::Fixed(vs), rest));
}

/// Takes an inline dynamic-array decode apart into its element chain.
pub proof fn lemma_inline_dyn_elim(
    s: StreamModel,
    et: TypeModel,
    v: ValueModel,
    rest: StreamModel,
) -> (ss: Seq<StreamModel>)
    requires
        decodes(s, TypeModel::Dyn(Box::new(et)), v, rest),
        s.bits.take(2) == tag_inline(),
    ensures
        v matches ValueModel::Dyn(vs) && vs.len() == byte_val(s.bits.skip(2).take(8)) && ss.len()
            == vs.len() + 1 && ss.first() == (StreamModel { bits: s.bits.skip(10), kids: s.kids })
            && ss.last() == rest && forall|i: int|
            0 <= i < vs.len() ==> decodes(#[trigger] ss[i], et, vs[i], ss[i + 1]),
{
    let vs = v->Dyn_0;
    let ss = choose|ss: Seq<StreamModel>|
        {
            &&& ss.len() == vs.len() + 1
            &&& ss.first() == (StreamModel { bits: s.bits.skip(10), kids: s.kids })
            &&& ss.last() == rest
            &&& forall|i: int| 0 <= i < vs.len() ==> decodes(#[trigger] ss[i], et, vs[i], ss[i + 1])
        };
    ss
}

/// Takes an inline fixed-array decode apart into its element chain.
pub proof fn lemma_inline_fixed_elim(
    s: StreamModel,
    et: TypeModel,
    n: nat,
    v: ValueModel,
    rest: StreamModel,
) -> (ss: Seq<StreamModel>)
    requires
        decodes(s, TypeModel::Fixed(Box::new(et), n), v, rest),
        s.bits.take(2) == tag_inline(),
    ensures
        v matches ValueModel::Fixed(vs) && vs.len() == n && ss.len() == vs.len() + 1 && ss.first()
            == (StreamModel { bits: s.bits.skip(2), kids: s.kids }) && ss.last() == rest && forall|
            i: int,
        | 0 <= i < vs.len() ==> decodes(#[trigger] ss[i], et, vs[i], ss[i + 1]),
{
    let vs = v->Fixed_0;
    let ss = choose|ss: Seq<StreamModel>|
        {
            &&& ss.len() == vs.len() + 1
            &&& ss.first() == (StreamModel { bits: s.bits.skip(2), kids: s.kids })
            &&& ss.last() == rest
            &&& forall|i: int| 0 <= i < vs.len() ==> decodes(#[trigger] ss[i], et, vs[i], ss[i + 1])
        };
    ss
}


/// A chain of element decodes, grown by one decode at its front.
pub proof fn lemma_chain_cons(
    etv: TypeModel,
    s_in: StreamModel,
    v0: ValueModel,
    s1: StreamModel,
    vs_rest: Seq<ValueModel>,
    ss_rest: Seq<StreamModel>,
) -> (ss: Seq<StreamModel>)
    requires
        decodes(s_in, etv, v0, s1),
        ss_rest.len() == vs_rest.len() + 1,
        ss_rest.first() == s1,
        forall|i: int|
            0 <= i < vs_rest.len() ==> decodes(#[trigger] ss_rest[i], etv, vs_rest[i], ss_rest[i
                + 1]),
    ensures
        ss.len() == vs_rest.len() + 2,
        ss.first() == s_in,
        ss.last() == ss_rest.last(),
        forall|i: int|
            0 <= i < vs_rest.len() + 1 ==> decodes(
                #[trigger] ss[i],
                etv,
                (seq![v0] + vs_rest)[i],
                ss[i + 1],
            ),
{
    let ss = seq![s_in] + ss_rest;
    assert(ss.last() == ss_rest.last());
    assert forall|i: int| 0 <= i < vs_rest.len() + 1 implies decodes(
        #[trigger] ss[i],
        etv,
        (seq![v0] + vs_rest)[i],
        ss[i + 1],
    ) by {
        if i == 0 {
            assert(ss[0] == s_in);
            assert(ss[1] == ss_rest[0]);
            assert(ss_rest[0] == ss_rest.first());
            assert((seq![v0] + vs_rest)[0] == v0);
        } else {
            assert(ss[i] == ss_rest[i - 1]);
            assert(ss[i + 1] == ss_rest[i]);
            assert((seq![v0] + vs_rest)[i] == vs_rest[i - 1]);
        }
    }
    ss
}

/// If nothing decodes from `s_in`, no non-empty element chain starts there.
pub proof fn lemma_no_chain_head(etv: TypeModel, s_in: StreamModel, k: int)
    requires
        k >= 1,
        forall|v: ValueModel, rest: StreamModel| !decodes(s_in, etv, v, rest),
    ensures
        forall|vs: Seq<ValueModel>, ss: Seq<StreamModel>|
            !({
                &&& vs.len() == k
                &&& ss.len() == k + 1
                &&& ss.first() == s_in
                &&& forall|i: int|
                    0 <= i < k ==> decodes(#[trigger] ss[i], etv, vs[i], ss[i + 1])
            }),
{
    assert forall|vs: Seq<ValueModel>, ss: Seq<StreamModel>|
        !({
            &&& vs.len() == k
            &&& ss.len() == k + 1
            &&& ss.first() == s_in
            &&& forall|i: int| 0 <= i < k ==> decodes(#[trigger] ss[i], etv, vs[i], ss[i + 1])
        }) by {
        if ({
            &&& vs.len() == k
            &&& ss.len() == k + 1
            &&& ss.first() == s_in
            &&& forall|i: int| 0 <= i < k ==> decodes(#[trigger] ss[i], etv, vs[i], ss[i + 1])
        }) {
            assert(decodes(ss[0], etv, vs[0], ss[1]));
            assert(false);
        }
    }
}

/// If one element decodes from `s_in` but no chain of `k - 1` elements
/// continues from where it ends, no chain of `k` elements starts at `s_in`.
pub proof fn lemma_no_chain_after(
    etv: TypeModel,
    s_in: StreamModel,
    v0: ValueModel,
    s1: StreamModel,
    k: int,
)
    requires
        k >= 1,
        decodes(s_in, etv, v0, s1),
        forall|vs: Seq<ValueModel>, ss: Seq<StreamModel>|
            !({
                &&& vs.len() == k - 1
                &&& ss.len() == k
                &&& ss.first() == s1
                &&& forall|i: int|
                    0 <= i < k - 1 ==> decodes(#[trigger] ss[i], etv, vs[i], ss[i + 1])
            }),
    ensures
        forall|vs: Seq<ValueModel>, ss: Seq<StreamModel>|
            !({
                &&& vs.len() == k
                &&& ss.len() == k + 1
                &&& ss.first() == s_in
                &&& forall|i: int|
                    0 <= i < k ==> decodes(#[trigger] ss[i], etv, vs[i], ss[i + 1])
            }),
{
    assert forall|vs: Seq<ValueModel>, ss: Seq<StreamModel>|
        !({
            &&& vs.len() == k
            &&& ss.len() == k + 1
            &&& ss.first() == s_in
            &&& forall|i: int| 0 <= i < k ==> decodes(#[trigger] ss[i], etv, vs[i], ss[i + 1])
        }) by {
        if ({
            &&& vs.len() == k
            &&& ss.len() == k + 1
            &&& ss.first() == s_in
            &&& forall|i: int| 0 <= i < k ==> decodes(#[trigger] ss[i], etv, vs[i], ss[i + 1])
        }) {
            assert(decodes(ss[0], etv, vs[0], ss[1]));
            lemma_decodes_deterministic(s_in, etv, vs[0], ss[1], v0, s1);
            let vs2 = vs.drop_first();
            let ss2 = ss.drop_first();
            assert forall|i: int| 0 <= i < k - 1 implies decodes(
                #[trigger] ss2[i],
                etv,
                vs2[i],
                ss2[i + 1],
            ) by {
                assert(ss2[i] == ss[i + 1]);
                assert(ss2[i + 1] == ss[i + 2]);
                assert(vs2[i] == vs[i + 1]);
            }
            assert(ss2.first() == ss[1]);
            assert(vs2.len() == k - 1);
            assert(ss2.len() == k);
            assert(false);
        }
    }
}

/// Keeps the innermost positional context, or marks element `idx`.
fn mark_element(e: DecodeError, idx: usize) -> (r: DecodeError)
    ensures
        r.kind == e.kind,
{
    match e.element {
        Some(_) => e,
        None => DecodeError { kind: e.kind, element: Some(idx) },
    }
}

/// Reads `k` elements of type `elem` in a row, starting at element index
/// `idx` of the surrounding array (for error context). The two ghost
/// parameters only anchor the termination measure of the mutual recursion
/// with `read_value`.
#[verifier::rlimit(100)]
fn read_elems(
    cursor: Cursor,
    elem: &ElemType,
    k: usize,
    idx: usize,
    Ghost(tb): Ghost<TypeModel>,
    Ghost(anchor): Ghost<Seq<NodeModel>>,
) -> (r: Result<(Vec<Value>, Cursor), DecodeError>)
    requires
        is_array_of(tb, type_view(*elem)),
    ensures
        r matches Ok((vals, c2)) ==> vals@.len() == k && exists|ss: Seq<StreamModel>|
            {
                &&& ss.len() == k + 1
                &&& ss.first() == cursor@
                &&& ss.last() == c2@
                &&& forall|i: int|
                    0 <= i < k ==> decodes(
                        #[trigger] ss[i],
                        type_view(*elem),
                        values_view(vals@)[i],
                        ss[i + 1],
                    )
            },
        r is Err ==> forall|vs: Seq<ValueModel>, ss: Seq<StreamModel>|
            !({
                &&& vs.len() == k
                &&& ss.len() == k + 1
                &&& ss.first() == cursor@
                &&& forall|i: int|
                    0 <= i < k ==> decodes(#[trigger] ss[i], type_view(*elem), vs[i], ss[i + 1])
            }),
    decreases tb, anchor, 0int, k,
{
    if k == 0 {
        let ghost ss0 = seq![cursor@];
        proof {
            assert(ss0.len() == 1);
            assert(ss0.first() == cursor@);
            assert(ss0.last() == cursor@);
        }
        let vals: Vec<Value> = Vec::new();
        proof {
            lemma_values_view(vals@);
        }
        Ok((vals, cursor))
    } else {
        let ghost s_in = cursor@;
        let ghost etv = type_view(*elem);
        match read_value(cursor, elem) {
            Ok((v, c1)) => {
                let idx2 = if idx < 65535 {
                    idx + 1
                } else {
                    idx
                };
                match read_elems(c1, elem, k - 1, idx2, Ghost(tb), Ghost(anchor)) {
                    Ok((vals_rest, c2)) => {
                        let ghost ss_rest = choose|ss: Seq<StreamModel>|
                            {
                                &&& ss.len() == (k - 1) + 1
                                &&& ss.first() == c1@
                                &&& ss.last() == c2@
                                &&& forall|i: int|
                                    0 <= i < k - 1 ==> decodes(
                                        #[trigger] ss[i],
                                        type_view(*elem),
                                        values_view(vals_rest@)[i],
                                        ss[i + 1],
                                    )
                            };
                        let ghost old_rest = vals_rest@;
                        let mut vals = vals_rest;
                        vals.insert(0, v);
                        proof {
                            old_rest.insert_ensures(0, v);
                            lemma_values_view(vals@);
                            lemma_values_view(old_rest);
                            let vmodel = value_view(v);
                            let ss = lemma_chain_cons(
                                etv,
                                s_in,
                                vmodel,
                                c1@,
                                values_view(old_rest),
                                ss_rest,
                            );
                            assert forall|i: int| 0 <= i < vals@.len() implies values_view(
                                vals@,
                            )[i] == (seq![vmodel] + values_view(old_rest))[i] by {
                                if i == 0 {
                                    assert(vals@[0] == v);
                                } else {
                                    assert(old_rest.insert(0, v)[(i - 1) + 1] == old_rest[i - 1]);
                                    assert(vals@[i] == old_rest[i - 1]);
                                    assert(values_view(old_rest)[i - 1] == value_view(
                                        old_rest[i - 1],
                                    ));
                                }
                            }
                            assert(values_view(vals@) =~= seq![vmodel] + values_view(old_rest));
                            assert(ss.len() == k + 1);
                            assert(ss.first() == s_in);
                            assert(ss.last() == c2@);
                        }
                        Ok((vals, c2))
                    },
                    Err(e) => {
                        proof {
                            lemma_no_chain_after(etv, s_in, value_view(v), c1@, k as int);
                        }
                        Err(e)
                    },
                }
            },
            Err(e) => {
                proof {
                    lemma_no_chain_head(etv, s_in, k as int);
                }
                Err(mark_element(e, idx))
            },
        }
    }
}

/// Reads one array (tag, then length and elements, or a branch) whose
/// elements have type `elem`; `fixed_len` is the element count of a fixed
/// array and ignored for a dynamic one. The ghost parameter is the model of
/// the array type being read.
#[verifier::rlimit(100)]
fn read_array(
    cursor: Cursor,
    elem: &ElemType,
    dynamic: bool,
    fixed_len: usize,
    Ghost(t): Ghost<TypeModel>,
) -> (r: Result<(Vec<Value>, Cursor), DecodeError>)
    requires
        dynamic ==> t == TypeModel::Dyn(Box::new(type_view(*elem))),
        !dynamic ==> t == TypeModel::Fixed(Box::new(type_view(*elem)), fixed_len as nat),
    ensures
        r matches Ok((vals, c)) ==> decodes(
            cursor@,
            t,
            if dynamic {
                ValueModel::Dyn(values_view(vals@))
            } else {
                ValueModel::Fixed(values_view(vals@))
            },
            c@,
        ),
        !dynamic ==> (r matches Ok((vals, c)) && vals@.len() == fixed_len || r is Err),
        r is Err ==> forall|v: ValueModel, rest: StreamModel| !decodes(cursor@, t, v, rest),
    decreases t, cursor@.kids, 1int, 0int,
{
    let ghost s0 = cursor@;
    let ghost etv = type_view(*elem);
    let (b0, c1) = match cursor.read_bit() {
        Ok(p) => p,
        Err(e) => {
            return Err(e);
        },
    };
    let (b1, c2) = match c1.read_bit() {
        Ok(p) => p,
        Err(e) => {
            return Err(e);
        },
    };
    proof {
        assert(s0.bits.take(2) =~= seq![b0, b1]);
    }
    if b0 && !b1 {
        proof {
            assert(s0.bits.take(2) =~= tag_inline());
        }
        let k: usize;
        let c3: Cursor;
        if dynamic {
            match c2.read_u8() {
                Ok((len, c)) => {
                    proof {
                        lemma_byte_val_bits(len);
                        assert(c2@.bits.take(8) =~= s0.bits.skip(2).take(8));
                        assert(c@.bits =~= s0.bits.skip(10));
                    }
                    k = len as usize;
                    c3 = c;
                },
                Err(e) => {
                    proof {
                        assert(s0.bits.take(2) != tag_branch()) by {
                            assert(tag_inline()[0] != tag_branch()[0]);
                        }
                        assert(s0.bits.len() < 10);
                    }
                    return Err(e);
                },
            }
        } else {
            k = fixed_len;
            c3 = c2;
            proof {
                assert(c3@.bits =~= s0.bits.skip(2));
            }
        }
        let ghost mid = c3@;
        proof {
            assert(mid.kids == s0.kids);
        }
        match read_elems(c3, elem, k, 0, Ghost(t), Ghost(s0.kids)) {
            Ok((vals, c4)) => {
                proof {
                    lemma_values_view(vals@);
                    let ss = choose|ss: Seq<StreamModel>|
                        {
                            &&& ss.len() == k + 1
                            &&& ss.first() == mid
                            &&& ss.last() == c4@
                            &&& forall|i: int|
                                0 <= i < k ==> decodes(
                                    #[trigger] ss[i],
                                    etv,
                                    values_view(vals@)[i],
                                    ss[i + 1],
                                )
                        };
                    if dynamic {
                        assert(byte_val(s0.bits.skip(2).take(8)) == k);
                        lemma_inline_dyn_intro(s0, etv, values_view(vals@), ss, c4@);
                    } else {
                        lemma_inline_fixed_intro(
                            s0,
                            etv,
                            fixed_len as nat,
                            values_view(vals@),
                            ss,
                            c4@,
                        );
                    }
                }
                Ok((vals, c4))
            },
            Err(e) => {
                proof {
                    assert(s0.bits.take(2) != tag_branch()) by {
                        assert(tag_inline()[0] != tag_branch()[0]);
                    }
                    assert forall|v: ValueModel, rest: StreamModel| !decodes(s0, t, v, rest) by {
                        if decodes(s0, t, v, rest) {
                            if dynamic {
                                let ss = lemma_inline_dyn_elim(s0, etv, v, rest);
                                assert(false);
                            } else {
                                let ss = lemma_inline_fixed_elim(
                                    s0,
                                    etv,
                                    fixed_len as nat,
                                    v,
                                    rest,
                                );
                                assert(false);
                            }
                        }
                    }
                }
                Err(e)
            },
        }
    } else if !b0 && !b1 {
        proof {
            assert(s0.bits.take(2) =~= tag_branch());
            assert(s0.bits.take(2) != tag_inline()) by {
                assert(tag_inline()[0] != tag_branch()[0]);
            }
        }
        match c2.next_child() {
            Ok((cc, pc)) => {
                proof {
                    assert(cc@ == stream_of(s0.kids[0]));
                }
                match read_array(cc, elem, dynamic, fixed_len, Ghost(t)) {
                    Ok((vals, crest)) => {
                        let no_bits = crest.bits_left();
                        let no_kids = crest.refs_left();
                        if no_bits == 0 && no_kids == 0 {
                            proof {
                                assert(crest@ =~= empty_stream());
                                assert(pc@.bits =~= s0.bits.skip(2));
                                assert(pc@.kids == s0.kids.drop_first());
                            }
                            Ok((vals, pc))
                        } else {
                            proof {
                                assert forall|v: ValueModel, rest: StreamModel|
                                    !decodes(s0, t, v, rest) by {
                                    if decodes(s0, t, v, rest) {
                                        lemma_decodes_deterministic(
                                            stream_of(s0.kids[0]),
                                            t,
                                            v,
                                            empty_stream(),
                                            if dynamic {
                                                ValueModel::Dyn(values_view(vals@))
                                            } else {
                                                ValueModel::Fixed(values_view(vals@))
                                            },
                                            crest@,
                                        );
                                    }
                                }
                            }
                            Err(DecodeError { kind: DecodeErrorKind::Truncated, element: None })
                        }
                    },
                    Err(e) => {
                        proof {
                            assert forall|v: ValueModel, rest: StreamModel|
                                !decodes(s0, t, v, rest) by {
                                if decodes(s0, t, v, rest) {
                                    assert(decodes(stream_of(s0.kids[0]), t, v, empty_stream()));
                                }
                            }
                        }
                        Err(e)
                    },
                }
            },
            Err(e) => {
                return Err(e);
            },
        }
    } else {
        proof {
            assert(s0.bits.take(2) != tag_inline()) by {
                assert(tag_inline()[1] != s0.bits.take(2)[1]);
            }
            assert(s0.bits.take(2) != tag_branch()) by {
                assert(tag_branch()[0] != s0.bits.take(2)[0] || tag_branch()[1] != s0.bits.take(
                    2,
                )[1]);
            }
        }
        Err(DecodeError { kind: DecodeErrorKind::MalformedTag, element: None })
    }
}

/// Reads one value of type `ty` from the cursor, handing back the value and
/// the advanced cursor. The result is exactly what the `decodes` relation
/// allows: whatever comes back satisfies it, and an error comes exactly on
/// input from which no value of this type decodes.
pub fn read_value(cursor: Cursor, ty: &ElemType) -> (r: Result<(Value, Cursor), DecodeError>)
    ensures
        r matches Ok((v, c)) ==> decodes(cursor@, type_view(*ty), v@, c@),
        r is Err ==> forall|v: ValueModel, rest: StreamModel|
            !decodes(cursor@, type_view(*ty), v, rest),
    decreases type_view(*ty), cursor@.kids, 2int, 0int,
{
    match ty {
        ElemType::Bool => {
            match cursor.read_bit() {
                Ok((b, c)) => Ok((Value::Bool(b), c)),
                Err(e) => Err(e),
            }
        },
        ElemType::Byte => {
            match cursor.read_u8() {
                Ok((x, c)) => Ok((Value::Byte(x), c)),
                Err(e) => Err(e),
            }
        },
        ElemType::Dyn(et) => {
            match read_array(cursor, et, true, 0, Ghost(type_view(*ty))) {
                Ok((vals, c)) => Ok((Value::Dyn(vals), c)),
                Err(e) => Err(e),
            }
        },
        ElemType::Fixed(et, n) => {
            match read_array(cursor, et, false, *n, Ghost(type_view(*ty))) {
                Ok((vals, c)) => Ok((Value::Fixed(vals), c)),
                Err(e) => Err(e),
            }
        },
    }
}

/// Reads a dynamic array of elements of type `elem`: the mirror of
/// `prepend_dynamic_array`.
pub fn read_dynamic_array(cursor: Cursor, elem: &ElemType) -> (r: Result<
    (Vec<Value>, Cursor),
    DecodeError,
>)
    ensures
        r matches Ok((vals, c)) ==> decodes(
            cursor@,
            TypeModel::Dyn(Box::new(type_view(*elem))),
            ValueModel::Dyn(values_view(vals@)),
            c@,
        ),
        r is Err ==> forall|v: ValueModel, rest: StreamModel|
            !decodes(cursor@, TypeModel::Dyn(Box::new(type_view(*elem))), v, rest),
{
    read_array(cursor, elem, true, 0, Ghost(TypeModel::Dyn(Box::new(type_view(*elem)))))
}

/// Reads a fixed array of exactly `n` elements of type `elem`: the mirror of
/// `prepend_fixed_array`. No length is read; `n` comes from the type.
pub fn read_fixed_array(cursor: Cursor, elem: &ElemType, n: usize) -> (r: Result<
    (Vec<Value>, Cursor),
    DecodeError,
>)
    ensures
        r matches Ok((vals, c)) ==> vals@.len() == n && decodes(
            cursor@,
            TypeModel::Fixed(Box::new(type_view(*elem)), n as nat),
            ValueModel::Fixed(values_view(vals@)),
            c@,
        ),
        r is Err ==> forall|v: ValueModel, rest: StreamModel|
            !decodes(cursor@, TypeModel::Fixed(Box::new(type_view(*elem)), n as nat), v, rest),
{
    read_array(
        cursor,
        elem,
        false,
        n,
        Ghost(TypeModel::Fixed(Box::new(type_view(*elem)), n as nat)),
    )
}

} // verus!
