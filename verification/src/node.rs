//! The bounded tree node: a bit buffer of at most `BIT_CAPACITY` bits plus at
//! most `MAX_REFS` child references. `Builder` is a node under construction,
//! written back to front (bits and references are prepended); `Node` is a
//! finalized node; `Cursor` reads a finalized node forward, consuming bits
//! and child references from the front.
use vstd::prelude::*;

use crate::DecodeError;
use crate::DecodeErrorKind;
use crate::EncodeError;

verus! {

/// Data bits a single node can hold.
pub const BIT_CAPACITY: usize = 1023;

/// Child references a single node can hold.
pub const MAX_REFS: usize = 4;

/// Mathematical model of a node: its bits in final order and its children,
/// first-referenced first.
#[verifier::ext_equal]
pub ghost struct NodeModel {
    pub bits: Seq<bool>,
    pub kids: Seq<NodeModel>,
}

/// What remains to be read: the model of a `Cursor`.
#[verifier::ext_equal]
pub ghost struct StreamModel {
    pub bits: Seq<bool>,
    pub kids: Seq<NodeModel>,
}

/// The whole content of a node, as a fresh stream.
pub open spec fn stream_of(n: NodeModel) -> StreamModel {
    StreamModel { bits: n.bits, kids: n.kids }
}

/// A node and all nodes below it respect the two capacity bounds.
pub open spec fn model_wf(n: NodeModel) -> bool
    decreases n,
{
    &&& n.bits.len() <= BIT_CAPACITY
    &&& n.kids.len() <= MAX_REFS
    &&& forall|i: int| 0 <= i < n.kids.len() ==> model_wf(#[trigger] n.kids[i])
}

/// The bits of a byte, most significant first.
pub open spec fn byte_bits(x: u8) -> Seq<bool> {
    Seq::new(8, |i: int| (x >> ((7 - i) as u8)) & 1u8 == 1u8)
}

/// A finalized node.
pub struct Node {
    bits: Vec<bool>,
    children: Vec<Node>,
}

/// A node under construction.
pub struct Builder {
    bits: Vec<bool>,
    children: Vec<Node>,
}

/// A forward reader over a finalized node; holds exactly what is left.
pub struct Cursor {
    bits: Vec<bool>,
    children: Vec<Node>,
}

pub closed spec fn kids_view(cs: Seq<Node>) -> Seq<NodeModel>
    decreases cs,
{
    if cs.len() == 0 {
        Seq::empty()
    } else {
        kids_view(cs.drop_last()).push(node_model(cs.last()))
    }
}

pub closed spec fn node_model(n: Node) -> NodeModel
    decreases n,
{
    NodeModel { bits: n.bits@, kids: kids_view(n.children@) }
}

impl View for Node {
    type V = NodeModel;

    closed spec fn view(&self) -> NodeModel {
        node_model(*self)
    }
}

impl View for Builder {
    type V = NodeModel;

    closed spec fn view(&self) -> NodeModel {
        NodeModel { bits: self.bits@, kids: kids_view(self.children@) }
    }
}

impl View for Cursor {
    type V = StreamModel;

    closed spec fn view(&self) -> StreamModel {
        StreamModel { bits: self.bits@, kids: kids_view(self.children@) }
    }
}

pub proof fn lemma_kids_view(cs: Seq<Node>)
    ensures
        kids_view(cs).len() == cs.len(),
        forall|i: int| 0 <= i < cs.len() ==> kids_view(cs)[i] == node_model(#[trigger] cs[i]),
    decreases cs,
{
    if cs.len() > 0 {
        lemma_kids_view(cs.drop_last());
        assert forall|i: int| 0 <= i < cs.len() implies kids_view(cs)[i] == node_model(
            #[trigger] cs[i],
        ) by {
            if i < cs.len() - 1 {
                assert(cs.drop_last()[i] == cs[i]);
            }
        }
    }
}

impl Builder {
    /// A fresh, empty builder.
    pub fn new() -> (b: Builder)
        ensures
            b@.bits == Seq::<bool>::empty(),
            b@.kids == Seq::<NodeModel>::empty(),
    {
        let b = Builder { bits: Vec::new(), children: Vec::new() };
        proof {
            lemma_kids_view(b.children@);
            assert(b@.kids =~= Seq::<NodeModel>::empty());
        }
        b
    }

    /// How many data bits any node can hold.
    pub fn bits_capacity(&self) -> (r: usize)
        ensures
            r == BIT_CAPACITY,
    {
        BIT_CAPACITY
    }

    /// How many bits are already written.
    pub fn bits_used(&self) -> (r: usize)
        ensures
            r == self@.bits.len(),
    {
        self.bits.len()
    }

    /// How many child references are already attached.
    pub fn child_count(&self) -> (r: usize)
        ensures
            r == self@.kids.len(),
    {
        proof {
            lemma_kids_view(self.children@);
        }
        self.children.len()
    }

    /// Puts `bits` in front of everything already written, provided the
    /// node's bit capacity is not exceeded.
    pub fn prepend_raw(self, bits: Vec<bool>) -> (r: Result<Builder, EncodeError>)
        ensures
            self@.bits.len() + bits@.len() <= BIT_CAPACITY ==> (r matches Ok(b) && b@
                == (NodeModel { bits: bits@ + self@.bits, kids: self@.kids })),
            self@.bits.len() + bits@.len() > BIT_CAPACITY ==> r == Err::<
                Builder,
                EncodeError,
            >(EncodeError::CapacityExceeded),
    {
        if bits.len() > BIT_CAPACITY || self.bits.len() > BIT_CAPACITY - bits.len() {
            return Err(EncodeError::CapacityExceeded);
        }
        let Builder { bits: old_bits, children } = self;
        let mut out = bits;
        let mut i: usize = 0;
        while i < old_bits.len()
            invariant
                i <= old_bits.len(),
                out@ == bits@ + old_bits@.take(i as int),
            decreases old_bits.len() - i,
        {
            out.push(old_bits[i]);
            proof {
                assert(out@ =~= bits@ + old_bits@.take(i + 1));
            }
            i = i + 1;
        }
        proof {
            assert(out@ =~= bits@ + old_bits@);
        }
        Ok(Builder { bits: out, children })
    }

    /// Puts one bit in front of everything already written.
    pub fn prepend_bit(self, bit: bool) -> (r: Result<Builder, EncodeError>)
        ensures
            self@.bits.len() + 1 <= BIT_CAPACITY ==> (r matches Ok(b) && b@
                == (NodeModel { bits: seq![bit] + self@.bits, kids: self@.kids })),
            self@.bits.len() + 1 > BIT_CAPACITY ==> r == Err::<
                Builder,
                EncodeError,
            >(EncodeError::CapacityExceeded),
    {
        let mut v: Vec<bool> = Vec::new();
        v.push(bit);
        proof {
            assert(v@ =~= seq![bit]);
        }
        self.prepend_raw(v)
    }

    /// Puts the eight bits of a byte, most significant first, in front of
    /// everything already written.
    pub fn prepend_u8(self, x: u8) -> (r: Result<Builder, EncodeError>)
        ensures
            self@.bits.len() + 8 <= BIT_CAPACITY ==> (r matches Ok(b) && b@
                == (NodeModel { bits: byte_bits(x) + self@.bits, kids: self@.kids })),
            self@.bits.len() + 8 > BIT_CAPACITY ==> r == Err::<
                Builder,
                EncodeError,
            >(EncodeError::CapacityExceeded),
    {
        let mut v: Vec<bool> = Vec::new();
        let mut j: u8 = 0;
        while j < 8
            invariant
                j <= 8,
                v@ == byte_bits(x).take(j as int),
            decreases 8 - j,
        {
            v.push((x >> (7 - j)) & 1 == 1);
            proof {
                assert(v@ =~= byte_bits(x).take(j + 1));
            }
            j = j + 1;
        }
        proof {
            assert(v@ =~= byte_bits(x));
        }
        self.prepend_raw(v)
    }

    /// Attaches a finalized node as the next child reference; references,
    /// like bits, are prepended, so the most recently attached child is the
    /// first one a reader meets.
    pub fn attach_child(self, child: Node) -> (r: Result<Builder, EncodeError>)
        ensures
            self@.kids.len() < MAX_REFS ==> (r matches Ok(b) && b@
                == (NodeModel { bits: self@.bits, kids: seq![child@] + self@.kids })),
            self@.kids.len() >= MAX_REFS ==> r == Err::<
                Builder,
                EncodeError,
            >(EncodeError::CapacityExceeded),
    {
        proof {
            lemma_kids_view(self.children@);
        }
        if self.children.len() >= MAX_REFS {
            return Err(EncodeError::CapacityExceeded);
        }
        let Builder { bits, children } = self;
        let ghost old_children = children@;
        let mut children = children;
        children.insert(0, child);
        proof {
            lemma_kids_view(children@);
            old_children.insert_ensures(0, child);
            assert forall|i: int| 0 <= i < children@.len() implies kids_view(children@)[i] == (
            seq![child@] + kids_view(old_children))[i] by {
                assert(children@ == old_children.insert(0, child));
                if i > 0 {
                    assert(old_children.insert(0, child)[(i - 1) + 1] == old_children[i - 1]);
                }
            }
            assert(kids_view(children@) =~= seq![child@] + kids_view(old_children));
        }
        Ok(Builder { bits, children })
    }

    /// Freezes the builder into an immutable node.
    pub fn finalize(self) -> (n: Node)
        ensures
            n@ == self@,
    {
        let Builder { bits, children } = self;
        Node { bits, children }
    }
}

impl Node {
    /// The bits of the node, in final order.
    pub fn bits(&self) -> (r: &Vec<bool>)
        ensures
            r@ == self@.bits,
    {
        &self.bits
    }

    /// How many child references the node holds.
    pub fn child_count(&self) -> (r: usize)
        ensures
            r == self@.kids.len(),
    {
        proof {
            lemma_kids_view(self.children@);
        }
        self.children.len()
    }
}

impl Cursor {
    /// A cursor positioned at the very beginning of a node.
    pub fn over(n: Node) -> (c: Cursor)
        ensures
            c@ == stream_of(n@),
    {
        let Node { bits, children } = n;
        Cursor { bits, children }
    }

    /// How many bits are left to read.
    pub fn bits_left(&self) -> (r: usize)
        ensures
            r == self@.bits.len(),
    {
        self.bits.len()
    }

    /// How many child references are left to follow.
    pub fn refs_left(&self) -> (r: usize)
        ensures
            r == self@.kids.len(),
    {
        proof {
            lemma_kids_view(self.children@);
        }
        self.children.len()
    }

    /// Reads the next bit.
    pub fn read_bit(self) -> (r: Result<(bool, Cursor), DecodeError>)
        ensures
            self@.bits.len() >= 1 ==> (r matches Ok((b, c)) && b == self@.bits[0] && c@
                == (StreamModel { bits: self@.bits.drop_first(), kids: self@.kids })),
            self@.bits.len() == 0 ==> r == Err::<
                (bool, Cursor),
                DecodeError,
            >(DecodeError { kind: DecodeErrorKind::Truncated, element: None }),
    {
        if self.bits.len() == 0 {
            return Err(DecodeError { kind: DecodeErrorKind::Truncated, element: None });
        }
        let ghost s0 = self@;
        let Cursor { bits, children } = self;
        let mut bits = bits;
        let b = bits.remove(0);
        proof {
            assert(bits@ =~= s0.bits.drop_first());
        }
        Ok((b, Cursor { bits, children }))
    }

    /// Reads the next eight bits as a byte, most significant first.
    pub fn read_u8(self) -> (r: Result<(u8, Cursor), DecodeError>)
        ensures
            self@.bits.len() >= 8 ==> (r matches Ok((x, c)) && byte_bits(x) == self@.bits.take(8)
                && c@ == (StreamModel { bits: self@.bits.skip(8), kids: self@.kids })),
            self@.bits.len() < 8 ==> r == Err::<
                (u8, Cursor),
                DecodeError,
            >(DecodeError { kind: DecodeErrorKind::Truncated, element: None }),
    {
        if self.bits.len() < 8 {
            return Err(DecodeError { kind: DecodeErrorKind::Truncated, element: None });
        }
        let ghost s0 = self@;
        let mut cur = self;
        let mut x: u8 = 0;
        let mut j: u8 = 0;
        proof {
            assert forall|sh: u8| sh < 8 implies (#[trigger] (x >> sh)) & 1u8 == 0u8 by {
                assert((0u8 >> sh) & 1u8 == 0u8) by (bit_vector);
            }
        }
        while j < 8
            invariant
                j <= 8,
                s0.bits.len() >= 8,
                cur@.bits == s0.bits.skip(j as int),
                cur@.kids == s0.kids,
                forall|sh: u8| 8 - (j as int) <= sh < 8 ==> (((#[trigger] (x >> sh)) & 1u8 == 1u8)
                    == s0.bits[7 - sh]),
                forall|sh: u8| sh < 8 - (j as int) ==> (#[trigger] (x >> sh)) & 1u8 == 0u8,
            decreases 8 - j,
        {
            let r = cur.read_bit();
            let (b, c2) = match r {
                Ok(p) => p,
                Err(_) => {
                    proof {
                        assert(false);
                    }
                    return Err(DecodeError { kind: DecodeErrorKind::Truncated, element: None });
                },
            };
            let ghost x_old = x;
            if b {
                x = x | (1u8 << (7 - j));
            }
            proof {
                assert(cur@.bits[0] == s0.bits[j as int]);
                assert(c2@.bits =~= s0.bits.skip(j + 1));
                let jj: u8 = (7 - j) as u8;
                if b {
                    assert forall|sh: u8| sh < 8 && sh != jj implies (#[trigger] (x >> sh)) & 1u8
                        == (x_old >> sh) & 1u8 by {
                        assert(((x_old | (1u8 << jj)) >> sh) & 1u8 == (x_old >> sh) & 1u8)
                            by (bit_vector)
                            requires
                                sh < 8u8,
                                jj <= 7u8,
                                sh != jj,
                        ;
                    }
                    assert((x >> jj) & 1u8 == 1u8) by {
                        assert(((x_old | (1u8 << jj)) >> jj) & 1u8 == 1u8) by (bit_vector)
                            requires
                                jj <= 7u8,
                        ;
                    }
                } else {
                    assert((x >> jj) & 1u8 == 0u8);
                }
                assert(((x >> jj) & 1u8 == 1u8) == s0.bits[j as int]);
            }
            cur = c2;
            j = j + 1;
        }
        proof {
            assert forall|i: int| 0 <= i < 8 implies byte_bits(x)[i] == s0.bits.take(8)[i] by {
                let sh: u8 = (7 - i) as u8;
                assert(((x >> sh) & 1u8 == 1u8) == s0.bits[7 - sh]);
            }
            assert(byte_bits(x) =~= s0.bits.take(8));
        }
        Ok((x, cur))
    }

    /// Follows the next child reference: hands back a fresh cursor over the
    /// child and the parent cursor advanced past the reference slot only.
    pub fn next_child(self) -> (r: Result<(Cursor, Cursor), DecodeError>)
        ensures
            self@.kids.len() >= 1 ==> (r matches Ok((cc, pc)) && cc@ == stream_of(self@.kids[0])
                && pc@ == (StreamModel { bits: self@.bits, kids: self@.kids.drop_first() })),
            self@.kids.len() == 0 ==> r == Err::<
                (Cursor, Cursor),
                DecodeError,
            >(DecodeError { kind: DecodeErrorKind::MissingChild, element: None }),
    {
        proof {
            lemma_kids_view(self.children@);
        }
        if self.children.len() == 0 {
            return Err(DecodeError { kind: DecodeErrorKind::MissingChild, element: None });
        }
        let Cursor { bits, children } = self;
        let ghost old_children = children@;
        let mut children = children;
        let child = children.remove(0);
        proof {
            lemma_kids_view(children@);
            assert forall|i: int| 0 <= i < children@.len() implies kids_view(children@)[i]
                == kids_view(old_children).drop_first()[i] by {
                assert(children@[i] == old_children[i + 1]);
            }
            assert(kids_view(children@) =~= kids_view(old_children).drop_first());
            assert(kids_view(old_children)[0] == node_model(old_children[0]));
        }
        let cc = Cursor::over(child);
        Ok((cc, Cursor { bits, children }))
    }
}

} // verus!
