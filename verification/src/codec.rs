//! One-shot serialization of a tree to a flat sequence of numeric words,
//! and lossless deserialization back.
//!
//! Each node is laid out in preorder: the six header words (center x, y, z,
//! half-size, capacity, divided flag), the buffered point count, the
//! buffered coordinates as consecutive triples, and then, for a divided
//! node, the eight children in the fixed child order. Words are `i128` so
//! that every coordinate and every capacity value fits.

use vstd::prelude::*;
use crate::aabb::Aabb;
use crate::oct_tree::OctTree;
use crate::point::Point;

verus! {

/// The buffered points, flattened to coordinate triples.
pub open spec fn flat_points(s: Seq<Point>) -> Seq<i128>
    decreases s.len(),
{
    if s.len() == 0 {
        Seq::empty()
    } else {
        flat_points(s.drop_last()) + seq![
            s.last().x as i128,
            s.last().y as i128,
            s.last().z as i128,
        ]
    }
}

/// The seven leading words of a node's encoding.
pub open spec fn header(t: OctTree) -> Seq<i128> {
    seq![
        t.boundary.center.x as i128,
        t.boundary.center.y as i128,
        t.boundary.center.z as i128,
        t.boundary.half_size as i128,
        t.capacity as i128,
        if t.divided {
            1i128
        } else {
            0i128
        },
        #[verifier::truncate] (t.points@.len() as i128),
    ]
}

/// The encoding of an optional child: nothing for an empty slot.
pub open spec fn enc_opt(o: Option<Box<OctTree>>) -> Seq<i128>
    decreases o,
{
    match o {
        None => Seq::empty(),
        Some(c) => encode_node(*c),
    }
}

/// The eight children's encodings, concatenated in child order.
pub open spec fn children_cat(t: OctTree) -> Seq<i128>
    decreases t,
{
    enc_opt(t.fne) + (enc_opt(t.fnw) + (enc_opt(t.fse) + (enc_opt(t.fsw) + (enc_opt(t.bne) + (
    enc_opt(t.bnw) + (enc_opt(t.bse) + enc_opt(t.bsw)))))))
}

/// The full encoding of a subtree: header, point count and coordinates,
/// then the children when the node is divided.
pub open spec fn encode_node(t: OctTree) -> Seq<i128>
    decreases t,
{
    header(t) + flat_points(t.points@) + (if t.divided {
        enc_opt(t.fne) + (enc_opt(t.fnw) + (enc_opt(t.fse) + (enc_opt(t.fsw) + (enc_opt(t.bne) + (
        enc_opt(t.bnw) + (enc_opt(t.bse) + enc_opt(t.bsw)))))))
    } else {
        Seq::empty()
    })
}

/// Whether the optional child slot holds an encodable subtree.
pub open spec fn opt_encodable(o: Option<Box<OctTree>>) -> bool
    decreases o,
{
    match o {
        None => false,
        Some(c) => encodable(*c),
    }
}

/// A tree the encoding represents without loss: a divided node has all
/// eight children, an undivided node none. Every well-formed tree is
/// encodable.
pub open spec fn encodable(t: OctTree) -> bool
    decreases t,
{
    &&& t.points@.len() <= usize::MAX
    &&& if t.divided {
        &&& opt_encodable(t.fne)
        &&& opt_encodable(t.fnw)
        &&& opt_encodable(t.fse)
        &&& opt_encodable(t.fsw)
        &&& opt_encodable(t.bne)
        &&& opt_encodable(t.bnw)
        &&& opt_encodable(t.bse)
        &&& opt_encodable(t.bsw)
    } else {
        &&& t.fne is None
        &&& t.fnw is None
        &&& t.fse is None
        &&& t.fsw is None
        &&& t.bne is None
        &&& t.bnw is None
        &&& t.bse is None
        &&& t.bsw is None
    }
}

/// Two optional children with identical structure.
pub open spec fn opt_same(a: Option<Box<OctTree>>, b: Option<Box<OctTree>>) -> bool
    decreases a,
{
    match a {
        None => b is None,
        Some(x) => match b {
            None => false,
            Some(y) => same_tree(*x, *y),
        },
    }
}

/// Structural identity of two trees: identical boundary, capacity,
/// buffered points, divided flag, and child presence at every node.
pub open spec fn same_tree(a: OctTree, b: OctTree) -> bool
    decreases a,
{
    &&& a.boundary == b.boundary
    &&& a.capacity == b.capacity
    &&& a.points@ == b.points@
    &&& a.divided == b.divided
    &&& opt_same(a.fne, b.fne)
    &&& opt_same(a.fnw, b.fnw)
    &&& opt_same(a.fse, b.fse)
    &&& opt_same(a.fsw, b.fsw)
    &&& opt_same(a.bne, b.bne)
    &&& opt_same(a.bnw, b.bnw)
    &&& opt_same(a.bse, b.bse)
    &&& opt_same(a.bsw, b.bsw)
}

/// A well-formed tree is encodable: its divided nodes have all eight
/// children and its leaves none.
pub proof fn lemma_wf_encodable(t: OctTree)
    requires
        t.wf(),
    ensures
        encodable(t),
    decreases t,
{
    assert(vstd::std_specs::vec::spec_vec_len(&t.points) == t.points@.len());
    if t.divided {
        match t.fne {
            Some(c) => lemma_wf_encodable(*c),
            None => {},
        }
        match t.fnw {
            Some(c) => lemma_wf_encodable(*c),
            None => {},
        }
        match t.fse {
            Some(c) => lemma_wf_encodable(*c),
            None => {},
        }
        match t.fsw {
            Some(c) => lemma_wf_encodable(*c),
            None => {},
        }
        match t.bne {
            Some(c) => lemma_wf_encodable(*c),
            None => {},
        }
        match t.bnw {
            Some(c) => lemma_wf_encodable(*c),
            None => {},
        }
        match t.bse {
            Some(c) => lemma_wf_encodable(*c),
            None => {},
        }
        match t.bsw {
            Some(c) => lemma_wf_encodable(*c),
            None => {},
        }
    }
}

/// The flattened points have three words per point, holding the
/// coordinates in order.
pub proof fn lemma_flat_points_index(s: Seq<Point>)
    ensures
        flat_points(s).len() == 3 * s.len(),
        forall|k: int|
            0 <= k < s.len() ==> flat_points(s)[3 * k] == (#[trigger] s[k]).x as i128
                && flat_points(s)[3 * k + 1] == s[k].y as i128 && flat_points(s)[3 * k + 2]
                == s[k].z as i128,
    decreases s.len(),
{
    if s.len() > 0 {
        let u = s.drop_last();
        lemma_flat_points_index(u);
        assert forall|k: int|
            0 <= k < s.len() implies flat_points(s)[3 * k] == (#[trigger] s[k]).x as i128
            && flat_points(s)[3 * k + 1] == s[k].y as i128 && flat_points(s)[3 * k + 2] == s[k].z
            as i128 by {
            if k < s.len() - 1 {
                assert(s[k] == u[k]);
                assert(flat_points(s)[3 * k] == flat_points(u)[3 * k]);
                assert(flat_points(s)[3 * k + 1] == flat_points(u)[3 * k + 1]);
                assert(flat_points(s)[3 * k + 2] == flat_points(u)[3 * k + 2]);
            } else {
                assert(s[k] == s.last());
            }
        }
    }
}

/// Splitting a known stretch of the data: where a subrange equals `a + b`,
/// its front part equals `a` and the rest equals `b`.
pub proof fn lemma_split_prefix(data: Seq<i128>, lo: int, hi: int, a: Seq<i128>, b: Seq<i128>)
    requires
        0 <= lo <= hi <= data.len(),
        data.subrange(lo, hi) == a + b,
    ensures
        lo + a.len() <= hi,
        data.subrange(lo, lo + a.len()) == a,
        data.subrange(lo + a.len(), hi) == b,
{
    assert((a + b).len() == a.len() + b.len());
    assert(data.subrange(lo, hi) =~= a + b);
    assert(data.subrange(lo, hi).len() == hi - lo);
    assert(data.subrange(lo, lo + a.len()) =~= a) by {
        assert forall|k: int| 0 <= k < a.len() implies data.subrange(lo, lo + a.len())[k] == a[k] by {
            assert(data.subrange(lo, hi)[k] == (a + b)[k]);
            assert(data.subrange(lo, hi)[k] == data[lo + k]);
            assert(data.subrange(lo, lo + a.len())[k] == data[lo + k]);
            assert((a + b)[k] == a[k]);
        }
    }
    assert(data.subrange(lo + a.len(), hi) =~= b) by {
        assert forall|k: int| 0 <= k < b.len() implies data.subrange(lo + a.len(), hi)[k]
            == b[k] by {
            assert(data.subrange(lo, hi)[a.len() + k] == (a + b)[a.len() + k]);
            assert(data.subrange(lo, hi)[a.len() + k] == data[lo + a.len() + k]);
            assert(data.subrange(lo + a.len(), hi)[k] == data[lo + a.len() + k]);
            assert((a + b)[a.len() + k] == b[k]);
        }
    }
}

/// The data holds the encoding of `t` starting at `pos`.
pub open spec fn starts_with_enc(data: Seq<i128>, pos: int, t: OctTree) -> bool {
    &&& 0 <= pos
    &&& pos + encode_node(t).len() <= data.len()
    &&& data.subrange(pos, pos + encode_node(t).len()) == encode_node(t)
}

/// Unpacks what holding an encoding at `pos` says about the data words: the
/// header and the coordinate triples are at fixed offsets, and for a divided
/// node the children's concatenated encodings follow.
pub proof fn lemma_enc_parts(data: Seq<i128>, pos: int, t: OctTree)
    requires
        starts_with_enc(data, pos, t),
    ensures
        pos + 7 + 3 * t.points@.len() <= data.len(),
        encode_node(t).len() == 7 + 3 * t.points@.len() + (if t.divided {
            children_cat(t).len()
        } else {
            0
        }),
        data[pos] == t.boundary.center.x as i128,
        data[pos + 1] == t.boundary.center.y as i128,
        data[pos + 2] == t.boundary.center.z as i128,
        data[pos + 3] == t.boundary.half_size as i128,
        data[pos + 4] == t.capacity as i128,
        data[pos + 5] == (if t.divided {
            1i128
        } else {
            0i128
        }),
        data[pos + 6] == t.points@.len() as i128,
        forall|k: int|
            0 <= k < t.points@.len() ==> data[pos + 7 + 3 * k] == (#[trigger] t.points@[k]).x
                as i128 && data[pos + 7 + 3 * k + 1] == t.points@[k].y as i128 && data[pos + 7 + 3
                * k + 2] == t.points@[k].z as i128,
        t.divided ==> data.subrange(pos + 7 + 3 * t.points@.len(), pos + encode_node(t).len())
            == children_cat(t),
{
    let e = encode_node(t);
    let hd = header(t);
    let fl = flat_points(t.points@);
    let n = t.points@.len() as int;
    lemma_flat_points_index(t.points@);
    assert(fl.len() == 3 * n);
    assert(e.len() == 7 + 3 * n + (if t.divided {
        children_cat(t).len() as int
    } else {
        0int
    }));
    assert forall|k: int| 0 <= k < e.len() implies data[pos + k] == e[k] by {
        assert(data.subrange(pos, pos + e.len())[k] == e[k]);
    }
    assert(e[0] == hd[0] && e[1] == hd[1] && e[2] == hd[2] && e[3] == hd[3] && e[4] == hd[4] && e[5]
        == hd[5] && e[6] == hd[6]);
    assert(data[pos] == e[0]);
    assert(data[pos + 1] == e[1]);
    assert(data[pos + 2] == e[2]);
    assert(data[pos + 3] == e[3]);
    assert(data[pos + 4] == e[4]);
    assert(data[pos + 5] == e[5]);
    assert(data[pos + 6] == e[6]);
    assert forall|k: int|
        0 <= k < t.points@.len() implies data[pos + 7 + 3 * k] == (#[trigger] t.points@[k]).x
        as i128 && data[pos + 7 + 3 * k + 1] == t.points@[k].y as i128 && data[pos + 7 + 3 * k + 2]
        == t.points@[k].z as i128 by {
        assert(data[pos + 7 + 3 * k] == e[7 + 3 * k]);
        assert(data[pos + 7 + 3 * k + 1] == e[7 + 3 * k + 1]);
        assert(data[pos + 7 + 3 * k + 2] == e[7 + 3 * k + 2]);
        assert(e[7 + 3 * k] == fl[3 * k]);
        assert(e[7 + 3 * k + 1] == fl[3 * k + 1]);
        assert(e[7 + 3 * k + 2] == fl[3 * k + 2]);
    }
    if t.divided {
        let start = pos + 7 + 3 * n;
        assert(data.subrange(start, pos + e.len()) =~= children_cat(t)) by {
            assert forall|k: int| 0 <= k < children_cat(t).len() implies data.subrange(
                start,
                pos + e.len(),
            )[k] == children_cat(t)[k] by {
                assert(data[start + k] == e[7 + 3 * n + k]);
                assert(e[7 + 3 * n + k] == children_cat(t)[k]);
            }
        }
    }
}

impl OctTree {
    /// Appends this subtree's encoding to `out`.
    #[verifier::rlimit(100)]
    fn encode_into(&self, out: &mut Vec<i128>)
        ensures
            final(out)@ == old(out)@ + encode_node(*self),
        decreases *self, 1int,
    {
        let ghost base = out@;
        out.push(self.boundary.center.x as i128);
        out.push(self.boundary.center.y as i128);
        out.push(self.boundary.center.z as i128);
        out.push(self.boundary.half_size as i128);
        out.push(self.capacity as i128);
        out.push(if self.divided {
            1i128
        } else {
            0i128
        });
        out.push(self.points.len() as i128);
        proof {
            assert(out@ =~= base + header(*self));
            assert(self.points@.take(0) =~= Seq::<Point>::empty());
        }
        let mut i: usize = 0;
        while i < self.points.len()
            invariant
                i <= self.points@.len(),
                out@ == base + header(*self) + flat_points(self.points@.take(i as int)),
            decreases self.points@.len() - i,
        {
            let p = self.points[i];
            out.push(p.x as i128);
            out.push(p.y as i128);
            out.push(p.z as i128);
            proof {
                let u = self.points@.take(i as int);
                assert(self.points@.take(i + 1).drop_last() =~= u);
                assert(out@ =~= base + header(*self) + flat_points(self.points@.take(i + 1)));
            }
            i += 1;
        }
        proof {
            assert(self.points@.take(self.points@.len() as int) =~= self.points@);
            assert(out@ == base + header(*self) + flat_points(self.points@));
        }
        if self.divided {
            self.encode_children(out);
        }
        proof {
            assert(out@ =~= old(out)@ + encode_node(*self));
        }
    }

    /// Appends one optional child's encoding.
    fn encode_child(o: &Option<Box<OctTree>>, out: &mut Vec<i128>)
        ensures
            final(out)@ == old(out)@ + enc_opt(*o),
        decreases *o, 2int,
    {
        match o {
            Some(c) => {
                c.encode_into(out);
            },
            None => {
                proof {
                    assert(out@ =~= old(out)@ + enc_opt(*o));
                }
            },
        }
    }

    /// Appends the eight children's encodings, in child order.
    #[verifier::rlimit(100)]
    fn encode_children(&self, out: &mut Vec<i128>)
        ensures
            final(out)@ == old(out)@ + (enc_opt(self.fne) + (enc_opt(self.fnw) + (enc_opt(
                self.fse,
            ) + (enc_opt(self.fsw) + (enc_opt(self.bne) + (enc_opt(self.bnw) + (enc_opt(self.bse)
                + enc_opt(self.bsw)))))))),
        decreases *self, 0int,
    {
        let ghost e1 = enc_opt(self.fne);
        let ghost e2 = enc_opt(self.fnw);
        let ghost e3 = enc_opt(self.fse);
        let ghost e4 = enc_opt(self.fsw);
        let ghost e5 = enc_opt(self.bne);
        let ghost e6 = enc_opt(self.bnw);
        let ghost e7 = enc_opt(self.bse);
        let ghost e8 = enc_opt(self.bsw);
        let ghost g0 = out@;
        Self::encode_child(&self.fne, out);
        let ghost g1 = out@;
        Self::encode_child(&self.fnw, out);
        let ghost g2 = out@;
        Self::encode_child(&self.fse, out);
        let ghost g3 = out@;
        Self::encode_child(&self.fsw, out);
        let ghost g4 = out@;
        Self::encode_child(&self.bne, out);
        let ghost g5 = out@;
        Self::encode_child(&self.bnw, out);
        let ghost g6 = out@;
        Self::encode_child(&self.bse, out);
        let ghost g7 = out@;
        Self::encode_child(&self.bsw, out);
        proof {
            assert(out@ =~= g6 + (e7 + e8));
            assert(out@ =~= g5 + (e6 + (e7 + e8)));
            assert(out@ =~= g4 + (e5 + (e6 + (e7 + e8))));
            assert(out@ =~= g3 + (e4 + (e5 + (e6 + (e7 + e8)))));
            assert(out@ =~= g2 + (e3 + (e4 + (e5 + (e6 + (e7 + e8))))));
            assert(out@ =~= g1 + (e2 + (e3 + (e4 + (e5 + (e6 + (e7 + e8)))))));
            assert(out@ =~= g0 + (e1 + (e2 + (e3 + (e4 + (e5 + (e6 + (e7 + e8))))))));
        }
    }


    /// Serializes the whole subtree into its flat word encoding. The
    /// encoding mirrors the node graph exactly; `deserialize` reconstructs
    /// the identical structure from it.
    pub fn serialize(&self) -> (r: Vec<i128>)
        ensures
            r@ == encode_node(*self),
    {
        let mut out: Vec<i128> = Vec::new();
        self.encode_into(&mut out);
        proof {
            assert(Seq::<i128>::empty() + encode_node(*self) =~= encode_node(*self));
        }
        out
    }
}


/// Selects a child slot by its position in the fixed child order.
pub open spec fn child_slot(t: OctTree, i: int) -> Option<Box<OctTree>> {
    if i == 0 {
        t.fne
    } else if i == 1 {
        t.fnw
    } else if i == 2 {
        t.fse
    } else if i == 3 {
        t.fsw
    } else if i == 4 {
        t.bne
    } else if i == 5 {
        t.bnw
    } else if i == 6 {
        t.bse
    } else {
        t.bsw
    }
}

/// Where child `i` of a node encoded at `pos` begins: past the header and
/// the coordinate triples, and past the earlier children's encodings.
pub open spec fn coff(t: OctTree, pos: int, i: int) -> int
    decreases i,
{
    if i <= 0 {
        pos + 7 + 3 * t.points@.len()
    } else {
        coff(t, pos, i - 1) + enc_opt(child_slot(t, i - 1)).len()
    }
}

/// For a divided node encoded at `pos`, each child slot is filled, its
/// encoding stands at its child offset, and the last offset is the end of
/// the node's encoding.
pub proof fn lemma_enc_children(data: Seq<i128>, pos: int, t: OctTree)
    requires
        encodable(t),
        starts_with_enc(data, pos, t),
        t.divided,
    ensures
        forall|i: int| 0 <= i < 8 ==> (#[trigger] child_slot(t, i)) is Some,
        forall|i: int|
            0 <= i < 8 ==> encodable(*(#[trigger] child_slot(t, i))->0) && starts_with_enc(
                data,
                coff(t, pos, i),
                *child_slot(t, i)->0,
            ),
        coff(t, pos, 8) == pos + encode_node(t).len(),
{
    lemma_enc_parts(data, pos, t);
    let endp = pos + encode_node(t).len();
    let e1 = enc_opt(t.fne);
    let e2 = enc_opt(t.fnw);
    let e3 = enc_opt(t.fse);
    let e4 = enc_opt(t.fsw);
    let e5 = enc_opt(t.bne);
    let e6 = enc_opt(t.bnw);
    let e7 = enc_opt(t.bse);
    let e8 = enc_opt(t.bsw);
    let q0 = pos + 7 + 3 * t.points@.len();
    assert(children_cat(t) == e1 + (e2 + (e3 + (e4 + (e5 + (e6 + (e7 + e8)))))));
    lemma_split_prefix(data, q0, endp, e1, e2 + (e3 + (e4 + (e5 + (e6 + (e7 + e8))))));
    let q1 = q0 + e1.len();
    lemma_split_prefix(data, q1, endp, e2, e3 + (e4 + (e5 + (e6 + (e7 + e8)))));
    let q2 = q1 + e2.len();
    lemma_split_prefix(data, q2, endp, e3, e4 + (e5 + (e6 + (e7 + e8))));
    let q3 = q2 + e3.len();
    lemma_split_prefix(data, q3, endp, e4, e5 + (e6 + (e7 + e8)));
    let q4 = q3 + e4.len();
    lemma_split_prefix(data, q4, endp, e5, e6 + (e7 + e8));
    let q5 = q4 + e5.len();
    lemma_split_prefix(data, q5, endp, e6, e7 + e8);
    let q6 = q5 + e6.len();
    lemma_split_prefix(data, q6, endp, e7, e8);
    let q7 = q6 + e7.len();
    assert(data.subrange(q7, endp) == e8);
    assert(q7 + e8.len() == endp);
    assert(coff(t, pos, 0) == q0);
    assert(coff(t, pos, 1) == q1);
    assert(coff(t, pos, 2) == q2);
    assert(coff(t, pos, 3) == q3);
    assert(coff(t, pos, 4) == q4);
    assert(coff(t, pos, 5) == q5);
    assert(coff(t, pos, 6) == q6);
    assert(coff(t, pos, 7) == q7);
    assert(coff(t, pos, 8) == endp);
    assert forall|i: int| 0 <= i < 8 implies (#[trigger] child_slot(t, i)) is Some by {}
    assert forall|i: int|
        0 <= i < 8 implies encodable(*(#[trigger] child_slot(t, i))->0) && starts_with_enc(
        data,
        coff(t, pos, i),
        *child_slot(t, i)->0,
    ) by {
        if i == 0 {
            assert(data.subrange(q0, q0 + e1.len()) == e1);
        } else if i == 1 {
            assert(data.subrange(q1, q1 + e2.len()) == e2);
        } else if i == 2 {
            assert(data.subrange(q2, q2 + e3.len()) == e3);
        } else if i == 3 {
            assert(data.subrange(q3, q3 + e4.len()) == e4);
        } else if i == 4 {
            assert(data.subrange(q4, q4 + e5.len()) == e5);
        } else if i == 5 {
            assert(data.subrange(q5, q5 + e6.len()) == e6);
        } else if i == 6 {
            assert(data.subrange(q6, q6 + e7.len()) == e7);
        } else {
            assert(data.subrange(q7, q7 + e8.len()) == e8);
        }
    }
}

impl OctTree {
    /// Parses one node encoding starting at `pos`. Wherever the data holds
    /// the encoding of an encodable tree at `pos`, parsing succeeds and
    /// yields a structurally identical tree together with the position just
    /// past that encoding; on other inputs the result is unspecified.
    #[verifier::rlimit(100)]
    fn decode_node(data: &Vec<i128>, pos: usize) -> (r: Option<(OctTree, usize)>)
        requires
            pos <= data@.len(),
        ensures
            r matches Some(pr) ==> pos < pr.1 && pr.1 <= data@.len(),
            forall|t: OctTree|
                encodable(t) && starts_with_enc(data@, pos as int, t) ==> (r matches Some(pr)
                    && same_tree(pr.0, t) && pr.1 as int == pos + encode_node(t).len()),
        decreases data@.len() - pos,
    {
        let len = data.len();
        if len - pos < 7 {
            proof {
                assert forall|t: OctTree|
                    encodable(t) && starts_with_enc(data@, pos as int, t) implies false by {
                    lemma_enc_parts(data@, pos as int, t);
                }
            }
            return None;
        }
        let w0 = data[pos];
        let w1 = data[pos + 1];
        let w2 = data[pos + 2];
        let w3 = data[pos + 3];
        let w4 = data[pos + 4];
        let w5 = data[pos + 5];
        let w6 = data[pos + 6];
        let avail = len - pos - 7;
        if w0 < i64::MIN as i128 || w0 > i64::MAX as i128 || w1 < i64::MIN as i128 || w1 > i64::MAX
            as i128 || w2 < i64::MIN as i128 || w2 > i64::MAX as i128 || w3 < i64::MIN as i128 || w3
            > i64::MAX as i128 || w4 < 0 || w4 > usize::MAX as i128 || w6 < 0 || w6 > (avail / 3)
            as i128 {
            proof {
                assert forall|t: OctTree|
                    encodable(t) && starts_with_enc(data@, pos as int, t) implies false by {
                    lemma_enc_parts(data@, pos as int, t);
                    assert(3 * t.points@.len() <= avail as int);
                    assert(t.points@.len() as i128 <= (avail / 3) as i128);
                }
            }
            return None;
        }
        let n = w6 as usize;
        proof {
            assert(3 * (avail as int / 3) <= avail as int);
            assert(pos + 7 + 3 * n <= len);
        }
        proof {
            assert(data@.len() <= usize::MAX);
        }
        let mut pts: Vec<Point> = Vec::new();
        let mut j: usize = 0;
        while j < n
            invariant
                j <= n,
                n as i128 == w6,
                pos + 7 + 3 * n <= data@.len(),
                data@.len() <= usize::MAX,
                w6 == data@[pos as int + 6],
                pts@.len() == j,
                forall|k: int|
                    0 <= k < j ==> (#[trigger] pts@[k]).x as i128 == data@[pos + 7 + 3 * k]
                        && pts@[k].y as i128 == data@[pos + 7 + 3 * k + 1] && pts@[k].z as i128
                        == data@[pos + 7 + 3 * k + 2],
            decreases n - j,
        {
            let off = pos + 7 + 3 * j;
            let a = data[off];
            let b = data[off + 1];
            let c = data[off + 2];
            if a < i64::MIN as i128 || a > i64::MAX as i128 || b < i64::MIN as i128 || b > i64::MAX
                as i128 || c < i64::MIN as i128 || c > i64::MAX as i128 {
                proof {
                    assert forall|t: OctTree|
                        encodable(t) && starts_with_enc(data@, pos as int, t) implies false by {
                        lemma_enc_parts(data@, pos as int, t);
                        assert(n as i128 == w6);
                        assert(t.points@.len() == n as int);
                        assert(data@[pos + 7 + 3 * (j as int)] == t.points@[j as int].x as i128);
                    }
                }
                return None;
            }
            pts.push(
                Point {
                    x: #[verifier::truncate] (a as i64),
                    y: #[verifier::truncate] (b as i64),
                    z: #[verifier::truncate] (c as i64),
                },
            );
            j += 1;
        }
        let base_end = pos + 7 + 3 * n;
        if w5 == 0 {
            let node = OctTree {
                boundary: Aabb {
                    center: Point {
                        x: #[verifier::truncate] (w0 as i64),
                        y: #[verifier::truncate] (w1 as i64),
                        z: #[verifier::truncate] (w2 as i64),
                    },
                    half_size: #[verifier::truncate] (w3 as i64),
                },
                capacity: #[verifier::truncate] (w4 as usize),
                points: pts,
                divided: false,
                fne: None,
                fnw: None,
                fse: None,
                fsw: None,
                bne: None,
                bnw: None,
                bse: None,
                bsw: None,
            };
            proof {
                assert forall|t: OctTree|
                    encodable(t) && starts_with_enc(data@, pos as int, t) implies same_tree(node, t)
                    && base_end as int == pos + encode_node(t).len() by {
                    lemma_enc_parts(data@, pos as int, t);
                    assert(!t.divided);
                    assert(n as i128 == w6);
                    assert(t.points@.len() == n as int);
                    assert(pts@ =~= t.points@) by {
                        assert forall|k: int| 0 <= k < n implies pts@[k] == t.points@[k] by {
                            assert(pts@[k].x as i128 == t.points@[k].x as i128);
                            assert(pts@[k].y as i128 == t.points@[k].y as i128);
                            assert(pts@[k].z as i128 == t.points@[k].z as i128);
                        }
                    }
                }
            }
            return Some((node, base_end));
        }
        if w5 != 1 {
            proof {
                assert forall|t: OctTree|
                    encodable(t) && starts_with_enc(data@, pos as int, t) implies false by {
                    lemma_enc_parts(data@, pos as int, t);
                }
            }
            return None;
        }
        let r1 = Self::decode_node(data, base_end);
        let (c1, p1) = match r1 {
            Some(pr) => pr,
            None => {
                proof {
                    assert forall|t: OctTree|
                        encodable(t) && starts_with_enc(data@, pos as int, t) implies false by {
                        lemma_enc_parts(data@, pos as int, t);
                        lemma_enc_children(data@, pos as int, t);
                        assert(n as i128 == w6);
                        assert(t.points@.len() == n as int);
                        assert(coff(t, pos as int, 0) == base_end as int);
                        assert(child_slot(t, 0) == t.fne);
                        assert(starts_with_enc(data@, base_end as int, *child_slot(t, 0)->0));
                        assert(r1 matches Some(pr) && same_tree(pr.0, *child_slot(t, 0)->0));
                    }
                }
                return None;
            },
        };
        let r2 = Self::decode_node(data, p1);
        let (c2, p2) = match r2 {
            Some(pr) => pr,
            None => {
                proof {
                    assert forall|t: OctTree|
                        encodable(t) && starts_with_enc(data@, pos as int, t) implies false by {
                        lemma_enc_parts(data@, pos as int, t);
                        lemma_enc_children(data@, pos as int, t);
                        assert(n as i128 == w6);
                        assert(t.points@.len() == n as int);
                        assert(coff(t, pos as int, 0) == base_end as int);
                        assert(child_slot(t, 0) == t.fne);
                        assert(starts_with_enc(data@, base_end as int, *child_slot(t, 0)->0));
                        assert(r1 matches Some(pr) && same_tree(pr.0, *child_slot(t, 0)->0) && pr.1 as int == coff(t, pos as int, 0) + encode_node(*child_slot(t, 0)->0).len());
                        assert(p1 as int == coff(t, pos as int, 1));
                        assert(child_slot(t, 1) == t.fnw);
                        assert(starts_with_enc(data@, p1 as int, *child_slot(t, 1)->0));
                        assert(r2 matches Some(pr) && same_tree(pr.0, *child_slot(t, 1)->0));
                    }
                }
                return None;
            },
        };
        let r3 = Self::decode_node(data, p2);
        let (c3, p3) = match r3 {
            Some(pr) => pr,
            None => {
                proof {
                    assert forall|t: OctTree|
                        encodable(t) && starts_with_enc(data@, pos as int, t) implies false by {
                        lemma_enc_parts(data@, pos as int, t);
                        lemma_enc_children(data@, pos as int, t);
                        assert(n as i128 == w6);
                        assert(t.points@.len() == n as int);
                        assert(coff(t, pos as int, 0) == base_end as int);
                        assert(child_slot(t, 0) == t.fne);
                        assert(starts_with_enc(data@, base_end as int, *child_slot(t, 0)->0));
                        assert(r1 matches Some(pr) && same_tree(pr.0, *child_slot(t, 0)->0) && pr.1 as int == coff(t, pos as int, 0) + encode_node(*child_slot(t, 0)->0).len());
                        assert(p1 as int == coff(t, pos as int, 1));
                        assert(child_slot(t, 1) == t.fnw);
                        assert(starts_with_enc(data@, p1 as int, *child_slot(t, 1)->0));
                        assert(r2 matches Some(pr) && same_tree(pr.0, *child_slot(t, 1)->0) && pr.1 as int == coff(t, pos as int, 1) + encode_node(*child_slot(t, 1)->0).len());
                        assert(p2 as int == coff(t, pos as int, 2));
                        assert(child_slot(t, 2) == t.fse);
                        assert(starts_with_enc(data@, p2 as int, *child_slot(t, 2)->0));
                        assert(r3 matches Some(pr) && same_tree(pr.0, *child_slot(t, 2)->0));
                    }
                }
                return None;
            },
        };
        let r4 = Self::decode_node(data, p3);
        let (c4, p4) = match r4 {
            Some(pr) => pr,
            None => {
                proof {
                    assert forall|t: OctTree|
                        encodable(t) && starts_with_enc(data@, pos as int, t) implies false by {
                        lemma_enc_parts(data@, pos as int, t);
                        lemma_enc_children(data@, pos as int, t);
                        assert(n as i128 == w6);
                        assert(t.points@.len() == n as int);
                        assert(coff(t, pos as int, 0) == base_end as int);
                        assert(child_slot(t, 0) == t.fne);
                        assert(starts_with_enc(data@, base_end as int, *child_slot(t, 0)->0));
                        assert(r1 matches Some(pr) && same_tree(pr.0, *child_slot(t, 0)->0) && pr.1 as int == coff(t, pos as int, 0) + encode_node(*child_slot(t, 0)->0).len());
                        assert(p1 as int == coff(t, pos as int, 1));
                        assert(child_slot(t, 1) == t.fnw);
                        assert(starts_with_enc(data@, p1 as int, *child_slot(t, 1)->0));
                        assert(r2 matches Some(pr) && same_tree(pr.0, *child_slot(t, 1)->0) && pr.1 as int == coff(t, pos as int, 1) + encode_node(*child_slot(t, 1)->0).len());
                        assert(p2 as int == coff(t, pos as int, 2));
                        assert(child_slot(t, 2) == t.fse);
                        assert(starts_with_enc(data@, p2 as int, *child_slot(t, 2)->0));
                        assert(r3 matches Some(pr) && same_tree(pr.0, *child_slot(t, 2)->0) && pr.1 as int == coff(t, pos as int, 2) + encode_node(*child_slot(t, 2)->0).len());
                        assert(p3 as int == coff(t, pos as int, 3));
                        assert(child_slot(t, 3) == t.fsw);
                        assert(starts_with_enc(data@, p3 as int, *child_slot(t, 3)->0));
                        assert(r4 matches Some(pr) && same_tree(pr.0, *child_slot(t, 3)->0));
                    }
                }
                return None;
            },
        };
        let r5 = Self::decode_node(data, p4);
        let (c5, p5) = match r5 {
            Some(pr) => pr,
            None => {
                proof {
                    assert forall|t: OctTree|
                        encodable(t) && starts_with_enc(data@, pos as int, t) implies false by {
                        lemma_enc_parts(data@, pos as int, t);
                        lemma_enc_children(data@, pos as int, t);
                        assert(n as i128 == w6);
                        assert(t.points@.len() == n as int);
                        assert(coff(t, pos as int, 0) == base_end as int);
                        assert(child_slot(t, 0) == t.fne);
                        assert(starts_with_enc(data@, base_end as int, *child_slot(t, 0)->0));
                        assert(r1 matches Some(pr) && same_tree(pr.0, *child_slot(t, 0)->0) && pr.1 as int == coff(t, pos as int, 0) + encode_node(*child_slot(t, 0)->0).len());
                        assert(p1 as int == coff(t, pos as int, 1));
                        assert(child_slot(t, 1) == t.fnw);
                        assert(starts_with_enc(data@, p1 as int, *child_slot(t, 1)->0));
                        assert(r2 matches Some(pr) && same_tree(pr.0, *child_slot(t, 1)->0) && pr.1 as int == coff(t, pos as int, 1) + encode_node(*child_slot(t, 1)->0).len());
                        assert(p2 as int == coff(t, pos as int, 2));
                        assert(child_slot(t, 2) == t.fse);
                        assert(starts_with_enc(data@, p2 as int, *child_slot(t, 2)->0));
                        assert(r3 matches Some(pr) && same_tree(pr.0, *child_slot(t, 2)->0) && pr.1 as int == coff(t, pos as int, 2) + encode_node(*child_slot(t, 2)->0).len());
                        assert(p3 as int == coff(t, pos as int, 3));
                        assert(child_slot(t, 3) == t.fsw);
                        assert(starts_with_enc(data@, p3 as int, *child_slot(t, 3)->0));
                        assert(r4 matches Some(pr) && same_tree(pr.0, *child_slot(t, 3)->0) && pr.1 as int == coff(t, pos as int, 3) + encode_node(*child_slot(t, 3)->0).len());
                        assert(p4 as int == coff(t, pos as int, 4));
                        assert(child_slot(t, 4) == t.bne);
                        assert(starts_with_enc(data@, p4 as int, *child_slot(t, 4)->0));
                        assert(r5 matches Some(pr) && same_tree(pr.0, *child_slot(t, 4)->0));
                    }
                }
                return None;
            },
        };
        let r6 = Self::decode_node(data, p5);
        let (c6, p6) = match r6 {
            Some(pr) => pr,
            None => {
                proof {
                    assert forall|t: OctTree|
                        encodable(t) && starts_with_enc(data@, pos as int, t) implies false by {
                        lemma_enc_parts(data@, pos as int, t);
                        lemma_enc_children(data@, pos as int, t);
                        assert(n as i128 == w6);
                        assert(t.points@.len() == n as int);
                        assert(coff(t, pos as int, 0) == base_end as int);
                        assert(child_slot(t, 0) == t.fne);
                        assert(starts_with_enc(data@, base_end as int, *child_slot(t, 0)->0));
                        assert(r1 matches Some(pr) && same_tree(pr.0, *child_slot(t, 0)->0) && pr.1 as int == coff(t, pos as int, 0) + encode_node(*child_slot(t, 0)->0).len());
                        assert(p1 as int == coff(t, pos as int, 1));
                        assert(child_slot(t, 1) == t.fnw);
                        assert(starts_with_enc(data@, p1 as int, *child_slot(t, 1)->0));
                        assert(r2 matches Some(pr) && same_tree(pr.0, *child_slot(t, 1)->0) && pr.1 as int == coff(t, pos as int, 1) + encode_node(*child_slot(t, 1)->0).len());
                        assert(p2 as int == coff(t, pos as int, 2));
                        assert(child_slot(t, 2) == t.fse);
                        assert(starts_with_enc(data@, p2 as int, *child_slot(t, 2)->0));
                        assert(r3 matches Some(pr) && same_tree(pr.0, *child_slot(t, 2)->0) && pr.1 as int == coff(t, pos as int, 2) + encode_node(*child_slot(t, 2)->0).len());
                        assert(p3 as int == coff(t, pos as int, 3));
                        assert(child_slot(t, 3) == t.fsw);
                        assert(starts_with_enc(data@, p3 as int, *child_slot(t, 3)->0));
                        assert(r4 matches Some(pr) && same_tree(pr.0, *child_slot(t, 3)->0) && pr.1 as int == coff(t, pos as int, 3) + encode_node(*child_slot(t, 3)->0).len());
                        assert(p4 as int == coff(t, pos as int, 4));
                        assert(child_slot(t, 4) == t.bne);
                        assert(starts_with_enc(data@, p4 as int, *child_slot(t, 4)->0));
                        assert(r5 matches Some(pr) && same_tree(pr.0, *child_slot(t, 4)->0) && pr.1 as int == coff(t, pos as int, 4) + encode_node(*child_slot(t, 4)->0).len());
                        assert(p5 as int == coff(t, pos as int, 5));
                        assert(child_slot(t, 5) == t.bnw);
                        assert(starts_with_enc(data@, p5 as int, *child_slot(t, 5)->0));
                        assert(r6 matches Some(pr) && same_tree(pr.0, *child_slot(t, 5)->0));
                    }
                }
                return None;
            },
        };
        let r7 = Self::decode_node(data, p6);
        let (c7, p7) = match r7 {
            Some(pr) => pr,
            None => {
                proof {
                    assert forall|t: OctTree|
                        encodable(t) && starts_with_enc(data@, pos as int, t) implies false by {
                        lemma_enc_parts(data@, pos as int, t);
                        lemma_enc_children(data@, pos as int, t);
                        assert(n as i128 == w6);
                        assert(t.points@.len() == n as int);
                        assert(coff(t, pos as int, 0) == base_end as int);
                        assert(child_slot(t, 0) == t.fne);
                        assert(starts_with_enc(data@, base_end as int, *child_slot(t, 0)->0));
                        assert(r1 matches Some(pr) && same_tree(pr.0, *child_slot(t, 0)->0) && pr.1 as int == coff(t, pos as int, 0) + encode_node(*child_slot(t, 0)->0).len());
                        assert(p1 as int == coff(t, pos as int, 1));
                        assert(child_slot(t, 1) == t.fnw);
                        assert(starts_with_enc(data@, p1 as int, *child_slot(t, 1)->0));
                        assert(r2 matches Some(pr) && same_tree(pr.0, *child_slot(t, 1)->0) && pr.1 as int == coff(t, pos as int, 1) + encode_node(*child_slot(t, 1)->0).len());
                        assert(p2 as int == coff(t, pos as int, 2));
                        assert(child_slot(t, 2) == t.fse);
                        assert(starts_with_enc(data@, p2 as int, *child_slot(t, 2)->0));
                        assert(r3 matches Some(pr) && same_tree(pr.0, *child_slot(t, 2)->0) && pr.1 as int == coff(t, pos as int, 2) + encode_node(*child_slot(t, 2)->0).len());
                        assert(p3 as int == coff(t, pos as int, 3));
                        assert(child_slot(t, 3) == t.fsw);
                        assert(starts_with_enc(data@, p3 as int, *child_slot(t, 3)->0));
                        assert(r4 matches Some(pr) && same_tree(pr.0, *child_slot(t, 3)->0) && pr.1 as int == coff(t, pos as int, 3) + encode_node(*child_slot(t, 3)->0).len());
                        assert(p4 as int == coff(t, pos as int, 4));
                        assert(child_slot(t, 4) == t.bne);
                        assert(starts_with_enc(data@, p4 as int, *child_slot(t, 4)->0));
                        assert(r5 matches Some(pr) && same_tree(pr.0, *child_slot(t, 4)->0) && pr.1 as int == coff(t, pos as int, 4) + encode_node(*child_slot(t, 4)->0).len());
                        assert(p5 as int == coff(t, pos as int, 5));
                        assert(child_slot(t, 5) == t.bnw);
                        assert(starts_with_enc(data@, p5 as int, *child_slot(t, 5)->0));
                        assert(r6 matches Some(pr) && same_tree(pr.0, *child_slot(t, 5)->0) && pr.1 as int == coff(t, pos as int, 5) + encode_node(*child_slot(t, 5)->0).len());
                        assert(p6 as int == coff(t, pos as int, 6));
                        assert(child_slot(t, 6) == t.bse);
                        assert(starts_with_enc(data@, p6 as int, *child_slot(t, 6)->0));
                        assert(r7 matches Some(pr) && same_tree(pr.0, *child_slot(t, 6)->0));
                    }
                }
                return None;
            },
        };
        let r8 = Self::decode_node(data, p7);
        let (c8, p8) = match r8 {
            Some(pr) => pr,
            None => {
                proof {
                    assert forall|t: OctTree|
                        encodable(t) && starts_with_enc(data@, pos as int, t) implies false by {
                        lemma_enc_parts(data@, pos as int, t);
                        lemma_enc_children(data@, pos as int, t);
                        assert(n as i128 == w6);
                        assert(t.points@.len() == n as int);
                        assert(coff(t, pos as int, 0) == base_end as int);
                        assert(child_slot(t, 0) == t.fne);
                        assert(starts_with_enc(data@, base_end as int, *child_slot(t, 0)->0));
                        assert(r1 matches Some(pr) && same_tree(pr.0, *child_slot(t, 0)->0) && pr.1 as int == coff(t, pos as int, 0) + encode_node(*child_slot(t, 0)->0).len());
                        assert(p1 as int == coff(t, pos as int, 1));
                        assert(child_slot(t, 1) == t.fnw);
                        assert(starts_with_enc(data@, p1 as int, *child_slot(t, 1)->0));
                        assert(r2 matches Some(pr) && same_tree(pr.0, *child_slot(t, 1)->0) && pr.1 as int == coff(t, pos as int, 1) + encode_node(*child_slot(t, 1)->0).len());
                        assert(p2 as int == coff(t, pos as int, 2));
                        assert(child_slot(t, 2) == t.fse);
                        assert(starts_with_enc(data@, p2 as int, *child_slot(t, 2)->0));
                        assert(r3 matches Some(pr) && same_tree(pr.0, *child_slot(t, 2)->0) && pr.1 as int == coff(t, pos as int, 2) + encode_node(*child_slot(t, 2)->0).len());
                        assert(p3 as int == coff(t, pos as int, 3));
                        assert(child_slot(t, 3) == t.fsw);
                        assert(starts_with_enc(data@, p3 as int, *child_slot(t, 3)->0));
                        assert(r4 matches Some(pr) && same_tree(pr.0, *child_slot(t, 3)->0) && pr.1 as int == coff(t, pos as int, 3) + encode_node(*child_slot(t, 3)->0).len());
                        assert(p4 as int == coff(t, pos as int, 4));
                        assert(child_slot(t, 4) == t.bne);
                        assert(starts_with_enc(data@, p4 as int, *child_slot(t, 4)->0));
                        assert(r5 matches Some(pr) && same_tree(pr.0, *child_slot(t, 4)->0) && pr.1 as int == coff(t, pos as int, 4) + encode_node(*child_slot(t, 4)->0).len());
                        assert(p5 as int == coff(t, pos as int, 5));
                        assert(child_slot(t, 5) == t.bnw);
                        assert(starts_with_enc(data@, p5 as int, *child_slot(t, 5)->0));
                        assert(r6 matches Some(pr) && same_tree(pr.0, *child_slot(t, 5)->0) && pr.1 as int == coff(t, pos as int, 5) + encode_node(*child_slot(t, 5)->0).len());
                        assert(p6 as int == coff(t, pos as int, 6));
                        assert(child_slot(t, 6) == t.bse);
                        assert(starts_with_enc(data@, p6 as int, *child_slot(t, 6)->0));
                        assert(r7 matches Some(pr) && same_tree(pr.0, *child_slot(t, 6)->0) && pr.1 as int == coff(t, pos as int, 6) + encode_node(*child_slot(t, 6)->0).len());
                        assert(p7 as int == coff(t, pos as int, 7));
                        assert(child_slot(t, 7) == t.bsw);
                        assert(starts_with_enc(data@, p7 as int, *child_slot(t, 7)->0));
                        assert(r8 matches Some(pr) && same_tree(pr.0, *child_slot(t, 7)->0));
                    }
                }
                return None;
            },
        };
        let node = OctTree {
            boundary: Aabb {
                center: Point {
                    x: #[verifier::truncate] (w0 as i64),
                    y: #[verifier::truncate] (w1 as i64),
                    z: #[verifier::truncate] (w2 as i64),
                },
                half_size: #[verifier::truncate] (w3 as i64),
            },
            capacity: #[verifier::truncate] (w4 as usize),
            points: pts,
            divided: true,
            fne: Some(Box::new(c1)),
            fnw: Some(Box::new(c2)),
            fse: Some(Box::new(c3)),
            fsw: Some(Box::new(c4)),
            bne: Some(Box::new(c5)),
            bnw: Some(Box::new(c6)),
            bse: Some(Box::new(c7)),
            bsw: Some(Box::new(c8)),
        };
        proof {
            assert forall|t: OctTree|
                encodable(t) && starts_with_enc(data@, pos as int, t) implies same_tree(node, t)
                && p8 as int == pos + encode_node(t).len() by {
                lemma_enc_parts(data@, pos as int, t);
                lemma_enc_children(data@, pos as int, t);
                assert(n as i128 == w6);
                assert(t.points@.len() == n as int);
                assert(coff(t, pos as int, 0) == base_end as int);
                assert(child_slot(t, 0) == t.fne);
                assert(starts_with_enc(data@, base_end as int, *child_slot(t, 0)->0));
                assert(r1 matches Some(pr) && same_tree(pr.0, *child_slot(t, 0)->0) && pr.1 as int == coff(t, pos as int, 0) + encode_node(*child_slot(t, 0)->0).len());
                assert(p1 as int == coff(t, pos as int, 1));
                assert(child_slot(t, 1) == t.fnw);
                assert(starts_with_enc(data@, p1 as int, *child_slot(t, 1)->0));
                assert(r2 matches Some(pr) && same_tree(pr.0, *child_slot(t, 1)->0) && pr.1 as int == coff(t, pos as int, 1) + encode_node(*child_slot(t, 1)->0).len());
                assert(p2 as int == coff(t, pos as int, 2));
                assert(child_slot(t, 2) == t.fse);
                assert(starts_with_enc(data@, p2 as int, *child_slot(t, 2)->0));
                assert(r3 matches Some(pr) && same_tree(pr.0, *child_slot(t, 2)->0) && pr.1 as int == coff(t, pos as int, 2) + encode_node(*child_slot(t, 2)->0).len());
                assert(p3 as int == coff(t, pos as int, 3));
                assert(child_slot(t, 3) == t.fsw);
                assert(starts_with_enc(data@, p3 as int, *child_slot(t, 3)->0));
                assert(r4 matches Some(pr) && same_tree(pr.0, *child_slot(t, 3)->0) && pr.1 as int == coff(t, pos as int, 3) + encode_node(*child_slot(t, 3)->0).len());
                assert(p4 as int == coff(t, pos as int, 4));
                assert(child_slot(t, 4) == t.bne);
                assert(starts_with_enc(data@, p4 as int, *child_slot(t, 4)->0));
                assert(r5 matches Some(pr) && same_tree(pr.0, *child_slot(t, 4)->0) && pr.1 as int == coff(t, pos as int, 4) + encode_node(*child_slot(t, 4)->0).len());
                assert(p5 as int == coff(t, pos as int, 5));
                assert(child_slot(t, 5) == t.bnw);
                assert(starts_with_enc(data@, p5 as int, *child_slot(t, 5)->0));
                assert(r6 matches Some(pr) && same_tree(pr.0, *child_slot(t, 5)->0) && pr.1 as int == coff(t, pos as int, 5) + encode_node(*child_slot(t, 5)->0).len());
                assert(p6 as int == coff(t, pos as int, 6));
                assert(child_slot(t, 6) == t.bse);
                assert(starts_with_enc(data@, p6 as int, *child_slot(t, 6)->0));
                assert(r7 matches Some(pr) && same_tree(pr.0, *child_slot(t, 6)->0) && pr.1 as int == coff(t, pos as int, 6) + encode_node(*child_slot(t, 6)->0).len());
                assert(p7 as int == coff(t, pos as int, 7));
                assert(child_slot(t, 7) == t.bsw);
                assert(starts_with_enc(data@, p7 as int, *child_slot(t, 7)->0));
                assert(r8 matches Some(pr) && same_tree(pr.0, *child_slot(t, 7)->0) && pr.1 as int == coff(t, pos as int, 7) + encode_node(*child_slot(t, 7)->0).len());
                assert(p8 as int == coff(t, pos as int, 8));
                assert(t.divided);
                assert(pts@ =~= t.points@) by {
                    assert forall|k: int| 0 <= k < n implies pts@[k] == t.points@[k] by {
                        assert(pts@[k].x as i128 == t.points@[k].x as i128);
                        assert(pts@[k].y as i128 == t.points@[k].y as i128);
                        assert(pts@[k].z as i128 == t.points@[k].z as i128);
                    }
                }
                assert(same_tree(node, t));
            }
        }
        Some((node, p8))
    }

    /// Reconstructs a tree from its serialized form. On the output of
    /// `serialize` for any encodable tree — in particular for any
    /// well-formed tree — deserialization succeeds and returns a tree with
    /// identical boundary, capacity, buffered points, divided flag and
    /// child structure at every node. Other inputs give `None` or an
    /// unspecified tree.
    pub fn deserialize(data: &Vec<i128>) -> (r: Option<OctTree>)
        ensures
            forall|t: OctTree|
                encodable(t) && data@ == encode_node(t) ==> (r matches Some(t2) && same_tree(
                    t2,
                    t,
                )),
    {
        match Self::decode_node(data, 0) {
            Some((t2, end)) => {
                if end == data.len() {
                    proof {
                        assert forall|t: OctTree|
                            encodable(t) && data@ == encode_node(t) implies same_tree(t2, t) by {
                            assert(data@.subrange(0, encode_node(t).len() as int) =~= encode_node(
                                t,
                            ));
                            assert(starts_with_enc(data@, 0, t));
                        }
                    }
                    Some(t2)
                } else {
                    proof {
                        assert forall|t: OctTree|
                            encodable(t) && data@ == encode_node(t) implies false by {
                            assert(data@.subrange(0, encode_node(t).len() as int) =~= encode_node(
                                t,
                            ));
                            assert(starts_with_enc(data@, 0, t));
                        }
                    }
                    None
                }
            },
            None => {
                proof {
                    assert forall|t: OctTree|
                        encodable(t) && data@ == encode_node(t) implies false by {
                        assert(data@.subrange(0, encode_node(t).len() as int) =~= encode_node(t));
                        assert(starts_with_enc(data@, 0, t));
                    }
                }
                None
            },
        }
    }

    /// Round trip: serializing a well-formed tree and deserializing the
    /// result reconstructs a tree with identical boundary, capacity,
    /// buffered points, divided flag and child structure at every node.
    pub fn round_trip(&self) -> (r: OctTree)
        requires
            self.wf(),
        ensures
            same_tree(r, *self),
    {
        proof {
            lemma_wf_encodable(*self);
        }
        let words = self.serialize();
        let out = Self::deserialize(&words);
        out.unwrap()
    }
}


/// Structurally identical trees are interchangeable: they store the same
/// points in the same order and are equally well-formed. Range queries then
/// agree as well, since on well-formed trees a query returns the stored
/// sequence filtered by the range. In particular the tree `deserialize`
/// reconstructs behaves exactly as the tree that was serialized.
#[verifier::rlimit(100)]
pub proof fn lemma_same_tree_equivalent(a: OctTree, b: OctTree)
    requires
        same_tree(a, b),
    ensures
        a.stored_seq() == b.stored_seq(),
        a.wf() == b.wf(),
    decreases a,
{
    match a.fne {
        Some(x) => match b.fne {
            Some(y) => {
                assert(same_tree(*x, *y));
                lemma_same_tree_equivalent(*x, *y);
                assert(x.boundary == y.boundary);
            },
            None => {},
        },
        None => {
            assert(b.fne is None);
        },
    }
    match a.fnw {
        Some(x) => match b.fnw {
            Some(y) => {
                assert(same_tree(*x, *y));
                lemma_same_tree_equivalent(*x, *y);
                assert(x.boundary == y.boundary);
            },
            None => {},
        },
        None => {
            assert(b.fnw is None);
        },
    }
    match a.fse {
        Some(x) => match b.fse {
            Some(y) => {
                assert(same_tree(*x, *y));
                lemma_same_tree_equivalent(*x, *y);
                assert(x.boundary == y.boundary);
            },
            None => {},
        },
        None => {
            assert(b.fse is None);
        },
    }
    match a.fsw {
        Some(x) => match b.fsw {
            Some(y) => {
                assert(same_tree(*x, *y));
                lemma_same_tree_equivalent(*x, *y);
                assert(x.boundary == y.boundary);
            },
            None => {},
        },
        None => {
            assert(b.fsw is None);
        },
    }
    match a.bne {
        Some(x) => match b.bne {
            Some(y) => {
                assert(same_tree(*x, *y));
                lemma_same_tree_equivalent(*x, *y);
                assert(x.boundary == y.boundary);
            },
            None => {},
        },
        None => {
            assert(b.bne is None);
        },
    }
    match a.bnw {
        Some(x) => match b.bnw {
            Some(y) => {
                assert(same_tree(*x, *y));
                lemma_same_tree_equivalent(*x, *y);
                assert(x.boundary == y.boundary);
            },
            None => {},
        },
        None => {
            assert(b.bnw is None);
        },
    }
    match a.bse {
        Some(x) => match b.bse {
            Some(y) => {
                assert(same_tree(*x, *y));
                lemma_same_tree_equivalent(*x, *y);
                assert(x.boundary == y.boundary);
            },
            None => {},
        },
        None => {
            assert(b.bse is None);
        },
    }
    match a.bsw {
        Some(x) => match b.bsw {
            Some(y) => {
                assert(same_tree(*x, *y));
                lemma_same_tree_equivalent(*x, *y);
                assert(x.boundary == y.boundary);
            },
            None => {},
        },
        None => {
            assert(b.bsw is None);
        },
    }
    assert(a.stored_seq() == b.stored_seq());
    assert(a.wf() == b.wf());
}

} // verus!
