//! Values the codec can place into a node, and their element types. The two
//! scalars stand for the scalar encoders the codec orchestrates: a boolean is
//! one bit, a byte is eight bits. Arrays come in two shapes: `Dyn` carries
//! its length on the wire as one byte, `Fixed` has its length fixed by the
//! type and writes no length.
use vstd::prelude::*;
use vstd::string::StringExecFns;

use crate::node::BIT_CAPACITY;

verus! {

/// A value to be encoded.
#[derive(Debug, PartialEq)]
pub enum Value {
    Bool(bool),
    Byte(u8),
    Dyn(Vec<Value>),
    Fixed(Vec<Value>),
}

/// The type of an element, directing decoding.
#[derive(Debug, PartialEq)]
pub enum ElemType {
    Bool,
    Byte,
    Dyn(Box<ElemType>),
    Fixed(Box<ElemType>, usize),
}

/// Mathematical model of a value.
pub ghost enum ValueModel {
    Bool(bool),
    Byte(u8),
    Dyn(Seq<ValueModel>),
    Fixed(Seq<ValueModel>),
}

/// Mathematical model of an element type.
pub ghost enum TypeModel {
    Bool,
    Byte,
    Dyn(Box<TypeModel>),
    Fixed(Box<TypeModel>, nat),
}

pub open spec fn values_view(es: Seq<Value>) -> Seq<ValueModel>
    decreases es,
{
    if es.len() == 0 {
        Seq::empty()
    } else {
        values_view(es.drop_last()).push(value_view(es.last()))
    }
}

pub open spec fn value_view(v: Value) -> ValueModel
    decreases v,
{
    match v {
        Value::Bool(b) => ValueModel::Bool(b),
        Value::Byte(x) => ValueModel::Byte(x),
        Value::Dyn(es) => ValueModel::Dyn(values_view(es@)),
        Value::Fixed(es) => ValueModel::Fixed(values_view(es@)),
    }
}

pub open spec fn type_view(t: ElemType) -> TypeModel
    decreases t,
{
    match t {
        ElemType::Bool => TypeModel::Bool,
        ElemType::Byte => TypeModel::Byte,
        ElemType::Dyn(et) => TypeModel::Dyn(Box::new(type_view(*et))),
        ElemType::Fixed(et, n) => TypeModel::Fixed(Box::new(type_view(*et)), n as nat),
    }
}

impl View for Value {
    type V = ValueModel;

    open spec fn view(&self) -> ValueModel {
        value_view(*self)
    }
}

impl View for ElemType {
    type V = TypeModel;

    open spec fn view(&self) -> TypeModel {
        type_view(*self)
    }
}

pub proof fn lemma_values_view(es: Seq<Value>)
    ensures
        values_view(es).len() == es.len(),
        forall|i: int| 0 <= i < es.len() ==> values_view(es)[i] == value_view(#[trigger] es[i]),
    decreases es,
{
    if es.len() > 0 {
        lemma_values_view(es.drop_last());
        assert forall|i: int| 0 <= i < es.len() implies values_view(es)[i] == value_view(
            #[trigger] es[i],
        ) by {
            if i < es.len() - 1 {
                assert(es.drop_last()[i] == es[i]);
            }
        }
    }
}

/// The value fits the type: scalars directly, arrays elementwise, a fixed
/// array also in its length.
pub open spec fn has_type(v: ValueModel, t: TypeModel) -> bool
    decreases v,
{
    match v {
        ValueModel::Bool(_) => t is Bool,
        ValueModel::Byte(_) => t is Byte,
        ValueModel::Dyn(es) => t matches TypeModel::Dyn(et) && all_have_type(es, *et),
        ValueModel::Fixed(es) => t matches TypeModel::Fixed(et, n) && es.len() == n
            && all_have_type(es, *et),
    }
}

pub open spec fn all_have_type(es: Seq<ValueModel>, t: TypeModel) -> bool
    decreases es,
{
    if es.len() == 0 {
        true
    } else {
        has_type(es.first(), t) && all_have_type(es.drop_first(), t)
    }
}

/// How many bits the value takes in the node it is written into: its payload
/// plus the 2-bit placement tag, or 2 alone when the payload cannot sit in
/// any single node and therefore always moves to a branch. The payload of a
/// dynamic array includes the 8-bit length prefix.
pub open spec fn size_of(v: ValueModel) -> int
    decreases v,
{
    match v {
        ValueModel::Bool(_) => 1,
        ValueModel::Byte(_) => 8,
        ValueModel::Dyn(es) => {
            let p = 8 + size_of_seq(es);
            if p > BIT_CAPACITY {
                2
            } else {
                p + 2
            }
        },
        ValueModel::Fixed(es) => {
            let p = size_of_seq(es);
            if p > BIT_CAPACITY {
                2
            } else {
                p + 2
            }
        },
    }
}

/// Total in-node size of a sequence of elements.
pub open spec fn size_of_seq(es: Seq<ValueModel>) -> int
    decreases es,
{
    if es.len() == 0 {
        0int
    } else {
        size_of(es.first()) + size_of_seq(es.drop_first())
    }
}

pub proof fn lemma_size_of_bounds(v: ValueModel)
    ensures
        1 <= size_of(v) <= BIT_CAPACITY + 2,
    decreases v,
{
    match v {
        ValueModel::Dyn(es) => lemma_size_of_seq_bounds(es),
        ValueModel::Fixed(es) => lemma_size_of_seq_bounds(es),
        _ => {},
    }
}

pub proof fn lemma_size_of_seq_bounds(es: Seq<ValueModel>)
    ensures
        size_of_seq(es) >= es.len(),
    decreases es,
{
    if es.len() > 0 {
        lemma_size_of_bounds(es.first());
        lemma_size_of_seq_bounds(es.drop_first());
    }
}

impl Value {
    /// How many bits this value takes in the node it is written into; see
    /// `size_of`. This is the size estimate the placement decision uses, and
    /// it equals the bits actually written whenever the value is placed
    /// inline.
    pub fn in_place_size(&self) -> (r: usize)
        ensures
            r == size_of(self@),
        decreases *self,
    {
        match self {
            Value::Bool(_) => 1,
            Value::Byte(_) => 8,
            Value::Dyn(es) => {
                let p = sum_sizes_capped(es, 8);
                if p > BIT_CAPACITY {
                    2
                } else {
                    p + 2
                }
            },
            Value::Fixed(es) => {
                let p = sum_sizes_capped(es, 0);
                if p > BIT_CAPACITY {
                    2
                } else {
                    p + 2
                }
            },
        }
    }
}

/// Sums the in-place sizes of `es` on top of `base`, saturating at one more
/// than the node capacity: beyond that bound only "too big" matters.
pub(crate) fn sum_sizes_capped(es: &Vec<Value>, base: usize) -> (r: usize)
    requires
        base <= 8,
    ensures
        base + size_of_seq(values_view(es@)) <= BIT_CAPACITY + 1 ==> r == base + size_of_seq(
            values_view(es@),
        ),
        base + size_of_seq(values_view(es@)) > BIT_CAPACITY + 1 ==> r == BIT_CAPACITY + 1,
    decreases *es,
{
    let mut sum: usize = base;
    let mut i: usize = 0;
    proof {
        lemma_values_view(es@);
    }
    while i < es.len()
        invariant
            i <= es@.len(),
            base <= 8,
            values_view(es@).len() == es@.len(),
            forall|k: int|
                0 <= k < es@.len() ==> values_view(es@)[k] == value_view(#[trigger] es@[k]),
            sum <= BIT_CAPACITY + 1,
            base + size_of_seq(values_view(es@).take(i as int)) <= BIT_CAPACITY + 1 ==> sum == base
                + size_of_seq(values_view(es@).take(i as int)),
            base + size_of_seq(values_view(es@).take(i as int)) > BIT_CAPACITY + 1 ==> sum
                == BIT_CAPACITY + 1,
        decreases es@.len() - i,
    {
        let s = es[i].in_place_size();
        proof {
            lemma_size_of_bounds(value_view(es@[i as int]));
            lemma_size_of_seq_take_step(values_view(es@), i as int);
        }
        if s > BIT_CAPACITY + 1 - sum {
            sum = BIT_CAPACITY + 1;
        } else {
            sum = sum + s;
            if sum > BIT_CAPACITY + 1 {
                sum = BIT_CAPACITY + 1;
            }
        }
        i = i + 1;
    }
    proof {
        assert(values_view(es@).take(es@.len() as int) =~= values_view(es@));
    }
    sum
}

/// Taking one more element adds its size to the sum of the prefix.
pub proof fn lemma_size_of_seq_take_step(es: Seq<ValueModel>, i: int)
    requires
        0 <= i < es.len(),
    ensures
        size_of_seq(es.take(i + 1)) == size_of_seq(es.take(i)) + size_of(es[i]),
    decreases i,
{
    if i == 0 {
        assert(es.take(1).first() == es[0]);
        assert(es.take(1).drop_first() =~= es.take(0));
    } else {
        lemma_size_of_seq_take_step(es.drop_first(), i - 1);
        assert(es.take(i + 1).first() == es[0]);
        assert(es.take(i + 1).drop_first() =~= es.drop_first().take(i));
        assert(es.take(i).first() == es[0]);
        assert(es.take(i).drop_first() =~= es.drop_first().take(i - 1));
        assert(es.drop_first()[i - 1] == es[i]);
    }
}

/// The character of one decimal digit.
pub open spec fn digit_char(d: nat) -> char {
    if d == 0 {
        '0'
    } else if d == 1 {
        '1'
    } else if d == 2 {
        '2'
    } else if d == 3 {
        '3'
    } else if d == 4 {
        '4'
    } else if d == 5 {
        '5'
    } else if d == 6 {
        '6'
    } else if d == 7 {
        '7'
    } else if d == 8 {
        '8'
    } else {
        '9'
    }
}

/// The decimal spelling of a number, most significant digit first.
pub open spec fn dec_digits(n: nat) -> Seq<char>
    decreases n,
{
    if n < 10 {
        seq![digit_char(n)]
    } else {
        dec_digits(n / 10).push(digit_char(n % 10))
    }
}

/// The canonical name of an element type: `bool` and `uint8` for the
/// scalars, `T[]` for a dynamic array and `T[N]` for a fixed one.
pub open spec fn spec_type_signature(t: TypeModel) -> Seq<char>
    decreases t,
{
    match t {
        TypeModel::Bool => "bool"@,
        TypeModel::Byte => "uint8"@,
        TypeModel::Dyn(et) => spec_type_signature(*et) + "[]"@,
        TypeModel::Fixed(et, n) => spec_type_signature(*et) + "["@ + dec_digits(n) + "]"@,
    }
}

fn digit_str(d: usize) -> (r: &'static str)
    requires
        d < 10,
    ensures
        r@ == seq![digit_char(d as nat)],
{
    proof {
        reveal_strlit("0");
        reveal_strlit("1");
        reveal_strlit("2");
        reveal_strlit("3");
        reveal_strlit("4");
        reveal_strlit("5");
        reveal_strlit("6");
        reveal_strlit("7");
        reveal_strlit("8");
        reveal_strlit("9");
    }
    let r = match d {
        0 => "0",
        1 => "1",
        2 => "2",
        3 => "3",
        4 => "4",
        5 => "5",
        6 => "6",
        7 => "7",
        8 => "8",
        _ => "9",
    };
    proof {
        assert(r@ =~= seq![digit_char(d as nat)]);
    }
    r
}

fn append_decimal(s: &mut String, n: usize)
    ensures
        final(s)@ == old(s)@ + dec_digits(n as nat),
    decreases n,
{
    if n < 10 {
        s.append(digit_str(n));
        proof {
            assert(s@ =~= old(s)@ + dec_digits(n as nat));
        }
    } else {
        let ghost s0 = s@;
        append_decimal(s, n / 10);
        s.append(digit_str(n % 10));
        proof {
            assert(s@ =~= s0 + dec_digits(n as nat));
        }
    }
}

/// The canonical name of an element type, as `spec_type_signature` says it.
pub fn type_signature(t: &ElemType) -> (r: String)
    ensures
        r@ == spec_type_signature(t@),
    decreases *t,
{
    match t {
        ElemType::Bool => "bool".to_owned(),
        ElemType::Byte => "uint8".to_owned(),
        ElemType::Dyn(et) => {
            let mut s = type_signature(et);
            s.append("[]");
            proof {
                assert(s@ =~= spec_type_signature(t@));
            }
            s
        },
        ElemType::Fixed(et, n) => {
            let mut s = type_signature(et);
            s.append("[");
            append_decimal(&mut s, *n);
            s.append("]");
            proof {
                assert(s@ =~= spec_type_signature(t@));
            }
            s
        },
    }
}

} // verus!

