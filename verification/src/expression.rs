//! Symbolic values and operation trees: the abstract stack holds
//! `Expression`s, and each instruction's fully expanded form is an `OpTree`
//! that the structural query engine searches.
use vstd::prelude::*;

use crate::bignum::BigNum;
use crate::bignum::be_val;
use crate::bignum::pow256;

verus! {

/// A vector's deep view is its elements' deep views, elementwise.
pub proof fn lemma_dv<T: DeepView>(v: &Vec<T>)
    ensures
        v.deep_view().len() == v@.len(),
        forall|i: int| 0 <= i < v@.len() ==> v.deep_view()[i] == #[trigger] v@[i].deep_view(),
{
}

/// A symbolic stack value: a constant, a free stack slot supplied from
/// outside the current block, or the opaque result of the instruction at a
/// given offset.
#[derive(Debug)]
pub enum Expression {
    Constant(BigNum),
    Argument(usize),
    ResultOf(usize),
}

/// The mathematical form of an `Expression`: the constant is its integer
/// value.
pub ghost enum ExprV {
    Constant(int),
    Argument(nat),
    ResultOf(nat),
}

impl View for Expression {
    type V = ExprV;

    open spec fn view(&self) -> ExprV {
        match self {
            Expression::Constant(v) => ExprV::Constant(v@),
            Expression::Argument(i) => ExprV::Argument(*i as nat),
            Expression::ResultOf(o) => ExprV::ResultOf(*o as nat),
        }
    }
}

impl DeepView for Expression {
    type V = ExprV;

    open spec fn deep_view(&self) -> ExprV {
        self.view()
    }
}

impl Clone for Expression {
    fn clone(&self) -> (r: Self)
        ensures
            r@ == self@,
    {
        match self {
            Expression::Constant(v) => Expression::Constant(v.clone()),
            Expression::Argument(i) => Expression::Argument(*i),
            Expression::ResultOf(o) => Expression::ResultOf(*o),
        }
    }
}

/// An expanded, self-contained operation tree; `Query` is a named wildcard
/// and appears only in patterns handed to the query engine.
#[derive(Debug)]
pub enum OpTree {
    Operation(u8, Vec<OpTree>),
    Constant(BigNum),
    Argument(usize),
    Query(String),
}

/// The mathematical form of an `OpTree`.
pub ghost enum OpTreeV {
    Operation(u8, Seq<OpTreeV>),
    Constant(int),
    Argument(nat),
    Query(Seq<char>),
}

/// The view of an operation tree, children viewed elementwise.
pub open spec fn view_tree(t: OpTree) -> OpTreeV
    decreases t,
    via view_tree_decreases
{
    match t {
        OpTree::Operation(op, children) => OpTreeV::Operation(op, view_children(children@)),
        OpTree::Constant(v) => OpTreeV::Constant(v@),
        OpTree::Argument(i) => OpTreeV::Argument(i as nat),
        OpTree::Query(name) => OpTreeV::Query(name@),
    }
}

/// The views of a sequence of trees, elementwise.
pub open spec fn view_children(ts: Seq<OpTree>) -> Seq<OpTreeV>
    decreases ts,
    via view_children_decreases
{
    if ts.len() == 0 {
        Seq::empty()
    } else {
        view_children(ts.drop_last()).push(view_tree(ts.last()))
    }
}

#[via_fn]
proof fn view_tree_decreases(t: OpTree) {
    match t {
        OpTree::Operation(op, children) => {
            assert(t->Operation_1 == children);
            assert(decreases_to!(t => t->Operation_1));
            assert(decreases_to!(children => children@));
        },
        _ => {},
    }
}

#[via_fn]
proof fn view_children_decreases(ts: Seq<OpTree>) {
    if ts.len() > 0 {
        vstd::seq::axiom_seq_subrange_decreases(ts, 0, ts.len() - 1);
        assert(ts.drop_last() == ts.subrange(0, ts.len() - 1));
        assert(decreases_to!(ts => ts[ts.len() - 1]));
    }
}

/// The view of a sequence of trees is the sequence of the trees' views.
pub proof fn lemma_view_children(ts: Seq<OpTree>)
    ensures
        view_children(ts).len() == ts.len(),
        forall|i: int| 0 <= i < ts.len() ==> view_children(ts)[i] == view_tree(#[trigger] ts[i]),
    decreases ts.len(),
{
    if ts.len() > 0 {
        lemma_view_children(ts.drop_last());
        assert forall|i: int| 0 <= i < ts.len() implies view_children(ts)[i] == view_tree(
            #[trigger] ts[i]) by {
            if i < ts.len() - 1 {
                assert(ts.drop_last()[i] == ts[i]);
                assert(view_children(ts.drop_last())[i] == view_tree(ts.drop_last()[i]));
            } else {
                assert(ts.last() == ts[i]);
            }
        }
    }
}

/// Each child of an operation tree stands below the tree in the order that
/// justifies structural recursion.
proof fn lemma_tree_child_decreases(t: OpTree, op: u8, children: Vec<OpTree>, i: int)
    requires
        t == OpTree::Operation(op, children),
        0 <= i < children@.len(),
    ensures
        decreases_to!(t => children@[i]),
{
    assert(t->Operation_1 == children);
    assert(decreases_to!(t => t->Operation_1));
    assert(decreases_to!(children => children@));
    assert(decreases_to!(children@ => children@[i]));
}

impl View for OpTree {
    type V = OpTreeV;

    open spec fn view(&self) -> OpTreeV {
        view_tree(*self)
    }
}

impl DeepView for OpTree {
    type V = OpTreeV;

    open spec fn deep_view(&self) -> OpTreeV {
        self.view()
    }
}

impl Clone for OpTree {
    fn clone(&self) -> (r: Self)
        ensures
            r@ == self@,
        decreases *self,
    {
        match self {
            OpTree::Operation(op, children) => {
                let mut out: Vec<OpTree> = Vec::new();
                let n = children.len();
                let mut i: usize = 0;
                while i < n
                    invariant
                        0 <= i <= n,
                        n == children@.len(),
                        *self == OpTree::Operation(*op, *children),
                        out@.len() == i,
                        forall|j: int| 0 <= j < i ==> out@[j]@ == children@[j]@,
                    decreases n - i,
                {
                    proof {
                        lemma_tree_child_decreases(*self, *op, *children, i as int);
                    }
                    let c = children[i].clone();
                    out.push(c);
                    i = i + 1;
                }
                proof {
                    lemma_view_children(out@);
                    lemma_view_children(children@);
                    assert forall|k: int| 0 <= k < out@.len() implies view_children(out@)[k]
                        == view_children(children@)[k] by {
                        assert(out@[k]@ == children@[k]@);
                    }
                    assert(view_children(out@) =~= view_children(children@));
                }
                OpTree::Operation(*op, out)
            },
            OpTree::Constant(v) => OpTree::Constant(v.clone()),
            OpTree::Argument(i) => OpTree::Argument(*i),
            OpTree::Query(name) => OpTree::Query(name.clone()),
        }
    }
}

/// True when a tree holds no wildcard: the form the trees stored in a program
/// always have, and what the query engine requires of the searched side.
pub open spec fn no_query(t: OpTreeV) -> bool
    decreases t,
{
    match t {
        OpTreeV::Query(_) => false,
        OpTreeV::Operation(_, cs) => forall|i: int| 0 <= i < cs.len() ==> no_query(#[trigger] cs[i]),
        _ => true,
    }
}

/// The bindings that matching `pattern` against `subject` yields: a wildcard
/// matches anything and binds its name to the subject subtree; operations
/// match on equal opcode, equal arity and matching children, whose bindings
/// are concatenated in order; constants and arguments match on equal value.
pub open spec fn match_bindings(subject: OpTreeV, pattern: OpTreeV) -> Option<
    Seq<(Seq<char>, OpTreeV)>,
>
    decreases pattern, 0int,
{
    match pattern {
        OpTreeV::Query(name) => Some(seq![(name, subject)]),
        OpTreeV::Operation(pop, pcs) => match subject {
            OpTreeV::Operation(sop, scs) => if sop == pop && scs.len() == pcs.len() {
                match_children(scs, pcs, 0)
            } else {
                None
            },
            _ => None,
        },
        OpTreeV::Constant(pv) => match subject {
            OpTreeV::Constant(sv) => if sv == pv {
                Some(Seq::empty())
            } else {
                None
            },
            _ => None,
        },
        OpTreeV::Argument(pi) => match subject {
            OpTreeV::Argument(si) => if si == pi {
                Some(Seq::empty())
            } else {
                None
            },
            _ => None,
        },
    }
}

/// The concatenated bindings of matching children pairwise from position `i`
/// on; `None` as soon as any pair fails to match.
pub open spec fn match_children(scs: Seq<OpTreeV>, pcs: Seq<OpTreeV>, i: int) -> Option<
    Seq<(Seq<char>, OpTreeV)>,
>
    decreases pcs, pcs.len() - i,
{
    if i < 0 || i >= pcs.len() || scs.len() != pcs.len() {
        Some(Seq::empty())
    } else {
        match match_bindings(scs[i], pcs[i]) {
            None => None,
            Some(b) => match match_children(scs, pcs, i + 1) {
                None => None,
                Some(rest) => Some(b + rest),
            },
        }
    }
}

/// The view of an exec binding list.
pub open spec fn bindings_view(v: Seq<(String, OpTree)>) -> Seq<(Seq<char>, OpTreeV)> {
    Seq::new(v.len(), |i: int| (v[i].0@, v[i].1@))
}

/// The bindings a successful query returns, a wildcard name with the subtree
/// it matched, in match order.
pub type QueryResult = Vec<(String, OpTree)>;

impl OpTree {
    /// Matches the pattern `other` against this tree.
    fn in_query(&self, other: &OpTree) -> (r: Option<QueryResult>)
        requires
            no_query(self@),
        ensures
            match r {
                Some(v) => match_bindings(self@, other@) == Some(bindings_view(v@)),
                None => match_bindings(self@, other@) is None,
            },
        decreases *other,
    {
        match other {
            OpTree::Query(n) => {
                let mut v: QueryResult = Vec::new();
                v.push((n.clone(), self.clone()));
                proof {
                    assert(bindings_view(v@) =~= seq![(n@, self@)]);
                }
                Some(v)
            },
            OpTree::Operation(oop, ocs) => match self {
                OpTree::Operation(sop, scs) => {
                    proof {
                        lemma_view_children(scs@);
                        lemma_view_children(ocs@);
                    }
                    let ghost svs = view_children(scs@);
                    let ghost pvs = view_children(ocs@);
                    if *sop == *oop && scs.len() == ocs.len() {
                        let n = ocs.len();
                        let mut acc: QueryResult = Vec::new();
                        let mut i: usize = 0;
                        proof {
                            assert(bindings_view(acc@) =~= Seq::<(Seq<char>, OpTreeV)>::empty());
                            match match_children(svs, pvs, 0) {
                                Some(rest) => {
                                    assert(bindings_view(acc@) + rest =~= rest);
                                },
                                None => {},
                            }
                        }
                        while i < n
                            invariant
                                0 <= i <= n,
                                *self == OpTree::Operation(*sop, *scs),
                                *other == OpTree::Operation(*oop, *ocs),
                                n == scs@.len() && n == ocs@.len(),
                                *sop == *oop,
                                svs == view_children(scs@),
                                pvs == view_children(ocs@),
                                no_query(self@),
                                match_children(svs, pvs, 0) == match match_children(
                                    svs,
                                    pvs,
                                    i as int,
                                ) {
                                    None => None::<Seq<(Seq<char>, OpTreeV)>>,
                                    Some(rest) => Some(bindings_view(acc@) + rest),
                                },
                            decreases n - i,
                        {
                            proof {
                                lemma_view_children(scs@);
                                lemma_view_children(ocs@);
                                assert(self@ == OpTreeV::Operation(*sop, svs));
                                assert(no_query(svs[i as int]));
                                assert(scs@[i as int]@ == svs[i as int]);
                                assert(ocs@[i as int]@ == pvs[i as int]);
                                lemma_tree_child_decreases(*other, *oop, *ocs, i as int);
                            }
                            let child = scs[i].in_query(&ocs[i]);
                            match child {
                                None => {
                                    proof {
                                        assert(match_children(svs, pvs, i as int) is None);
                                        assert(match_bindings(self@, other@) is None);
                                    }
                                    return None;
                                },
                                Some(mut b) => {
                                    let ghost old_acc = acc@;
                                    let ghost bseq = b@;
                                    acc.append(&mut b);
                                    proof {
                                        assert(bindings_view(old_acc + bseq) =~= bindings_view(
                                            old_acc) + bindings_view(bseq));
                                        match match_children(svs, pvs, i + 1) {
                                            None => {},
                                            Some(rest) => {
                                                assert((bindings_view(old_acc) + bindings_view(
                                                    bseq)) + rest =~= bindings_view(old_acc) + (
                                                bindings_view(bseq) + rest));
                                            },
                                        }
                                    }
                                },
                            }
                            i = i + 1;
                        }
                        proof {
                            assert(match_children(svs, pvs, i as int) == Some(
                                Seq::<(Seq<char>, OpTreeV)>::empty()));
                            assert(bindings_view(acc@) + Seq::<(Seq<char>, OpTreeV)>::empty()
                                =~= bindings_view(acc@));
                            assert(self@ == OpTreeV::Operation(*sop, svs));
                            assert(other@ == OpTreeV::Operation(*oop, pvs));
                            assert(match_bindings(self@, other@) == Some(bindings_view(acc@)));
                        }
                        Some(acc)
                    } else {
                        None
                    }
                },
                OpTree::Query(_) => {
                    proof {
                        assert(false);
                    }
                    None
                },
                _ => None,
            },
            OpTree::Constant(ov) => match self {
                OpTree::Constant(sv) => {
                    if crate::bignum::big_eq(sv, ov) {
                        let v: QueryResult = Vec::new();
                        proof {
                            assert(bindings_view(v@) =~= Seq::<(Seq<char>, OpTreeV)>::empty());
                        }
                        Some(v)
                    } else {
                        None
                    }
                },
                OpTree::Query(_) => {
                    proof {
                        assert(false);
                    }
                    None
                },
                _ => None,
            },
            OpTree::Argument(oi) => match self {
                OpTree::Argument(si) => {
                    if *si == *oi {
                        let v: QueryResult = Vec::new();
                        proof {
                            assert(bindings_view(v@) =~= Seq::<(Seq<char>, OpTreeV)>::empty());
                        }
                        Some(v)
                    } else {
                        None
                    }
                },
                OpTree::Query(_) => {
                    proof {
                        assert(false);
                    }
                    None
                },
                _ => None,
            },
        }
    }

    /// Matches the pattern `other` against this tree, returning the wildcard
    /// bindings on success. This tree must hold no wildcards itself.
    pub fn query(&self, other: &OpTree) -> (r: Option<QueryResult>)
        requires
            no_query(self@),
        ensures
            match r {
                Some(v) => match_bindings(self@, other@) == Some(bindings_view(v@)),
                None => match_bindings(self@, other@) is None,
            },
    {
        self.in_query(other)
    }
}

/// Builds a symbolic constant by big-endian interpretation of the given
/// bytes; no bytes give zero.
pub fn make_constant(data: &[u8]) -> (r: Expression)
    ensures
        r@ == ExprV::Constant(be_val(data@) as int),
{
    Expression::Constant(BigNum { negative: false, mag: vstd::slice::slice_to_vec(data) })
}

/// The two's-complement big-endian byte encoding of a value.
/// Relies on `num::BigInt::to_signed_bytes_be`.
#[verifier::external_body]
pub fn make_vec(val: &BigNum) -> (r: Vec<u8>)
    ensures
        r@.len() >= 1,
        val@ >= 0 ==> be_val(r@) == val@,
        val@ < 0 ==> be_val(r@) == pow256(r@.len()) + val@,
{
    let s = if val.negative { num::bigint::Sign::Minus } else { num::bigint::Sign::Plus };
    num::BigInt::from_bytes_be(s, &val.mag).to_signed_bytes_be()
}

/// A tree with no wildcards matched against itself yields one match with no
/// bindings.
pub proof fn lemma_match_self(t: OpTreeV)
    requires
        no_query(t),
    ensures
        match_bindings(t, t) == Some(Seq::<(Seq<char>, OpTreeV)>::empty()),
    decreases t, 0int,
{
    match t {
        OpTreeV::Operation(op, cs) => {
            lemma_match_children_self(cs, 0);
        },
        _ => {},
    }
}

proof fn lemma_match_children_self(cs: Seq<OpTreeV>, i: int)
    requires
        forall|k: int| 0 <= k < cs.len() ==> no_query(#[trigger] cs[k]),
    ensures
        match_children(cs, cs, i) == Some(Seq::<(Seq<char>, OpTreeV)>::empty()),
    decreases cs, cs.len() - i,
{
    if 0 <= i < cs.len() {
        lemma_match_self(cs[i]);
        lemma_match_children_self(cs, i + 1);
        assert(Seq::<(Seq<char>, OpTreeV)>::empty() + Seq::<(Seq<char>, OpTreeV)>::empty()
            =~= Seq::<(Seq<char>, OpTreeV)>::empty());
    }
}

/// A pattern that is the tree with one leaf replaced by the wildcard `name`;
/// `leaf` is the subtree that stood there.
pub open spec fn one_leaf_replaced(t: OpTreeV, p: OpTreeV, name: Seq<char>, leaf: OpTreeV) -> bool
    decreases t,
{
    ||| (p == OpTreeV::Query(name) && leaf == t)
    ||| match (t, p) {
        (OpTreeV::Operation(top, tcs), OpTreeV::Operation(pop, pcs)) => {
            &&& top == pop
            &&& tcs.len() == pcs.len()
            &&& exists|i: int|
                0 <= i < tcs.len() && one_leaf_replaced(#[trigger] tcs[i], pcs[i], name, leaf)
                    && (forall|j: int| 0 <= j < tcs.len() && j != i ==> pcs[j] == tcs[j])
        },
        _ => false,
    }
}

/// Matching a pattern built from the tree by replacing one leaf with the
/// wildcard `name` yields one match, binding `name` to exactly the replaced
/// subtree.
pub proof fn lemma_match_replaced(t: OpTreeV, p: OpTreeV, name: Seq<char>, leaf: OpTreeV)
    requires
        no_query(t),
        one_leaf_replaced(t, p, name, leaf),
    ensures
        match_bindings(t, p) == Some(seq![(name, leaf)]),
    decreases t, 1int,
{
    if p == OpTreeV::Query(name) && leaf == t {
    } else {
        match (t, p) {
            (OpTreeV::Operation(top, tcs), OpTreeV::Operation(pop, pcs)) => {
                let i = choose|i: int|
                    0 <= i < tcs.len() && one_leaf_replaced(#[trigger] tcs[i], pcs[i], name, leaf)
                        && (forall|j: int| 0 <= j < tcs.len() && j != i ==> pcs[j] == tcs[j]);
                lemma_match_children_replaced(tcs, pcs, 0, i, name, leaf);
            },
            _ => {},
        }
    }
}

proof fn lemma_match_children_replaced(
    tcs: Seq<OpTreeV>,
    pcs: Seq<OpTreeV>,
    k: int,
    i: int,
    name: Seq<char>,
    leaf: OpTreeV,
)
    requires
        forall|j: int| 0 <= j < tcs.len() ==> no_query(#[trigger] tcs[j]),
        tcs.len() == pcs.len(),
        0 <= i < tcs.len(),
        one_leaf_replaced(tcs[i], pcs[i], name, leaf),
        forall|j: int| 0 <= j < tcs.len() && j != i ==> pcs[j] == tcs[j],
        0 <= k <= tcs.len(),
    ensures
        match_children(tcs, pcs, k) == if k <= i {
            Some(seq![(name, leaf)])
        } else {
            Some(Seq::<(Seq<char>, OpTreeV)>::empty())
        },
    decreases tcs, tcs.len() - k,
{
    if k < tcs.len() {
        if k == i {
            lemma_match_replaced(tcs[i], pcs[i], name, leaf);
        } else {
            lemma_match_self(tcs[k]);
        }
        lemma_match_children_replaced(tcs, pcs, k + 1, i, name, leaf);
        if k <= i {
            assert(match_children(tcs, pcs, k) == Some(seq![(name, leaf)])) by {
                if k == i {
                    assert(seq![(name, leaf)] + Seq::<(Seq<char>, OpTreeV)>::empty()
                        =~= seq![(name, leaf)]);
                } else {
                    assert(Seq::<(Seq<char>, OpTreeV)>::empty() + seq![(name, leaf)]
                        =~= seq![(name, leaf)]);
                }
            }
        } else {
            assert(Seq::<(Seq<char>, OpTreeV)>::empty() + Seq::<(Seq<char>, OpTreeV)>::empty()
                =~= Seq::<(Seq<char>, OpTreeV)>::empty());
        }
    }
}

} // verus!
