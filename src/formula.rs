//! Expression trees over integer and decimal literals: simplification by
//! flattening, constant folding and pushing negation down, and exact
//! evaluation.
use crate::digits::pow10;
use crate::float::{max_int, sum_value, Float};
use crate::integer::Integer;
use vstd::prelude::*;

verus! {

broadcast use vstd::std_specs::vec::group_vec_axioms, vstd::seq::group_seq_axioms;

/// A node of an expression tree; each node owns its children.
#[derive(Debug)]
pub enum FormulaTypes {
    Integer(Integer),
    Float(Float),
    Addition(Addition),
    Negative(Negative),
}

/// A sum of any number of terms, in order.
#[derive(Debug)]
pub struct Addition {
    pub elements: Vec<Box<FormulaTypes>>,
}

/// The negation of one term.
#[derive(Debug)]
pub struct Negative {
    pub element: Box<FormulaTypes>,
}

/// The largest scale magnitude a decimal literal of a tree may have.
pub const SCALE_BOUND: i64 = 0x3fff_ffff;

/// Every literal of the tree is canonical, with a scale of at most
/// `SCALE_BOUND` in magnitude.
pub open spec fn tree_ok(f: FormulaTypes) -> bool
    decreases f,
{
    match f {
        FormulaTypes::Integer(n) => n.wf(),
        FormulaTypes::Float(x) => x.wf() && -SCALE_BOUND <= x.scale@ <= SCALE_BOUND,
        FormulaTypes::Addition(a) => all_ok(a.elements@),
        FormulaTypes::Negative(n) => tree_ok(*n.element),
    }
}

pub open spec fn all_ok(s: Seq<Box<FormulaTypes>>) -> bool
    decreases s,
{
    if s.len() == 0 {
        true
    } else {
        all_ok(s.drop_last()) && tree_ok(*s.last())
    }
}

pub open spec fn is_literal(f: FormulaTypes) -> bool {
    f is Integer || f is Float
}

/// The terms with every nested sum spliced in its place, recursively.
pub open spec fn flatten(s: Seq<Box<FormulaTypes>>) -> Seq<Box<FormulaTypes>>
    decreases s,
{
    if s.len() == 0 {
        seq![]
    } else {
        flatten(s.drop_last()) + match *s.last() {
            FormulaTypes::Addition(a) => flatten(a.elements@),
            _ => seq![s.last()],
        }
    }
}

/// The terms that are not literals, in order.
pub open spec fn non_literals(s: Seq<Box<FormulaTypes>>) -> Seq<Box<FormulaTypes>>
    decreases s.len(),
{
    if s.len() == 0 {
        seq![]
    } else if is_literal(*s.last()) {
        non_literals(s.drop_last())
    } else {
        non_literals(s.drop_last()).push(s.last())
    }
}

/// The sum of the integer literals among the terms.
pub open spec fn int_total(s: Seq<Box<FormulaTypes>>) -> int
    decreases s.len(),
{
    if s.len() == 0 {
        0
    } else {
        int_total(s.drop_last()) + match *s.last() {
            FormulaTypes::Integer(n) => n@,
            _ => 0,
        }
    }
}

/// The left-to-right decimal sum, as `(value, scale)`, of the non-zero
/// decimal literals among the terms, starting from zero at scale zero.
pub open spec fn float_total(s: Seq<Box<FormulaTypes>>) -> (int, int)
    decreases s.len(),
{
    if s.len() == 0 {
        (0, 0)
    } else {
        let acc = float_total(s.drop_last());
        match *s.last() {
            FormulaTypes::Float(x) => if x.value@ != 0 {
                (sum_value(acc.0, acc.1, x.value@, x.scale@), max_int(acc.1, x.scale@))
            } else {
                acc
            },
            _ => acc,
        }
    }
}

/// The folded constant of the terms: whether it is a decimal, its value
/// and its scale.
pub open spec fn folded(s: Seq<Box<FormulaTypes>>) -> (bool, int, int) {
    let i = int_total(s);
    let f = float_total(s);
    if f.0 == 0 {
        (false, i, 0)
    } else if i == 0 {
        (true, f.0, f.1)
    } else {
        (true, sum_value(i, 0, f.0, f.1), max_int(0, f.1))
    }
}

/// `f` is the literal that stands for the folded constant `c`.
pub open spec fn is_constant(f: FormulaTypes, c: (bool, int, int)) -> bool {
    match f {
        FormulaTypes::Integer(n) => !c.0 && n.wf() && n@ == c.1,
        FormulaTypes::Float(x) => c.0 && x.wf() && x.value@ == c.1 && x.scale@ == c.2,
        _ => false,
    }
}

/// `out` is the simplification of the sum of `ts`: the flattened terms
/// that are not literals, in order, then the folded constant unless it is
/// zero.
pub open spec fn add_simplified(ts: Seq<Box<FormulaTypes>>, out: FormulaTypes) -> bool {
    let flat = flatten(ts);
    let kept = non_literals(flat);
    let c = folded(flat);
    match out {
        FormulaTypes::Addition(a) => {
            &&& a.elements@.len() == kept.len() + if c.1 == 0 {
                0int
            } else {
                1int
            }
            &&& a.elements@.take(kept.len() as int) == kept
            &&& c.1 != 0 ==> is_constant(*a.elements@[kept.len() as int], c)
        },
        _ => false,
    }
}

/// `out` is the simplification of the negation of `child`.
pub open spec fn neg_simplified(child: FormulaTypes, out: FormulaTypes) -> bool
    decreases child,
{
    match child {
        FormulaTypes::Integer(n) => match out {
            FormulaTypes::Integer(m) => m.wf() && m@ == -n@,
            _ => false,
        },
        FormulaTypes::Float(x) => match out {
            FormulaTypes::Float(y) => y.wf() && y.scale == x.scale && y.value@ == -x.value@,
            _ => false,
        },
        FormulaTypes::Negative(n) => out == *n.element,
        FormulaTypes::Addition(a) => match out {
            FormulaTypes::Addition(b) => all_neg_simplified(a.elements@, b.elements@),
            _ => false,
        },
    }
}

/// Each of `us` is the simplified negation of the term of `ts` at its place.
pub open spec fn all_neg_simplified(ts: Seq<Box<FormulaTypes>>, us: Seq<Box<FormulaTypes>>) -> bool
    decreases ts,
{
    if ts.len() == 0 {
        us.len() == 0
    } else {
        &&& us.len() == ts.len()
        &&& all_neg_simplified(ts.drop_last(), us.drop_last())
        &&& neg_simplified(*ts.last(), *us.last())
    }
}

/// `out` is the simplification of `f`.
pub open spec fn simplified(f: FormulaTypes, out: FormulaTypes) -> bool {
    match f {
        FormulaTypes::Integer(_) => out == f,
        FormulaTypes::Float(_) => out == f,
        FormulaTypes::Addition(a) => add_simplified(a.elements@, out),
        FormulaTypes::Negative(n) => neg_simplified(*n.element, out),
    }
}

/// The exact value of a tree as `(value, scale)`: literals as they are, a
/// sum folded left to right from zero, a negation with its value negated.
pub open spec fn eval(f: FormulaTypes) -> (int, int)
    decreases f,
{
    match f {
        FormulaTypes::Integer(n) => (n@, 0),
        FormulaTypes::Float(x) => (x.value@, x.scale@),
        FormulaTypes::Addition(a) => eval_sum(a.elements@),
        FormulaTypes::Negative(n) => {
            let e = eval(*n.element);
            (-e.0, e.1)
        },
    }
}

pub open spec fn eval_sum(s: Seq<Box<FormulaTypes>>) -> (int, int)
    decreases s,
{
    if s.len() == 0 {
        (0, 0)
    } else {
        let acc = eval_sum(s.drop_last());
        let e = eval(*s.last());
        (sum_value(acc.0, acc.1, e.0, e.1), max_int(acc.1, e.1))
    }
}

/// The terms that `f` contributes to a flattened sum: the flattened
/// terms of a sum, or `f` itself.
pub open spec fn flat_terms(f: FormulaTypes) -> Seq<Box<FormulaTypes>> {
    match f {
        FormulaTypes::Addition(a) => flatten(a.elements@),
        _ => seq![Box::new(f)],
    }
}

/// Appends to `out` the terms that `f` contributes to a flattened sum.
fn flatten_into(f: FormulaTypes, out: &mut Vec<Box<FormulaTypes>>)
    requires
        tree_ok(f),
        all_ok(old(out)@),
    ensures
        final(out)@ == old(out)@ + flat_terms(f),
        all_ok(final(out)@),
    decreases f,
{
    let ghost whole = f;
    match f {
        FormulaTypes::Addition(a) => {
            let ghost orig = a.elements@;
            let ghost start = out@;
            let ghost orig_len = a.elements.len();
            let mut rest = a.elements;
            let mut i: usize = 0;
            proof {
                assert(orig.take(0) =~= seq![]);
                assert(out@ =~= start + flatten(orig.take(0)));
            }
            while rest.len() > 0
                invariant
                    rest@ == orig.skip(i as int),
                    i <= orig.len(),
                    orig.len() == orig_len,
                    orig_len <= usize::MAX,
                    out@ == start + flatten(orig.take(i as int)),
                    all_ok(out@),
                    all_ok(orig),
                    whole == FormulaTypes::Addition(a),
                    whole == f,
                    orig == a.elements@,
                decreases rest.len(),
            {
                let e = rest.remove(0);
                proof {
                    assert(e == orig[i as int]);
                    assert(orig.take(i + 1).drop_last() =~= orig.take(i as int));
                    lemma_all_ok_index(orig, i as int);
                    let w = whole->Addition_0;
                    assert(decreases_to!(whole => whole->Addition_0));
                    assert(decreases_to!(w => w.elements));
                    assert(decreases_to!(w.elements => w.elements@));
                    assert(decreases_to!(w.elements@ => w.elements@[i as int]));
                    assert(w.elements@[i as int] == e);
                    assert(decreases_to!(whole => *e));
                }
                flatten_into(*e, out);
                i = i + 1;
                proof {
                    assert(rest@ =~= orig.skip(i as int));
                    assert(out@ =~= start + flatten(orig.take(i as int)));
                }
            }
            proof {
                assert(orig.take(i as int) =~= orig);
            }
        },
        other => {
            let ghost before = out@;
            out.push(Box::new(other));
            proof {
                assert(out@.drop_last() =~= before);
                assert(out@ =~= before + seq![Box::new(other)]);
            }
        },
    }
}

pub proof fn lemma_all_ok_index(s: Seq<Box<FormulaTypes>>, i: int)
    requires
        all_ok(s),
        0 <= i < s.len(),
    ensures
        tree_ok(*s[i]),
    decreases s.len(),
{
    if i < s.len() - 1 {
        lemma_all_ok_index(s.drop_last(), i);
    }
}

/// The simplified negation of `child`: a literal with its sign flipped,
/// the grandchild of a double negation as it is, or for a sum a new sum of
/// the simplified negations of its terms. Recursion goes as deep as the
/// tree.
fn negate_simplified(child: FormulaTypes) -> (r: Box<FormulaTypes>)
    requires
        tree_ok(child),
    ensures
        neg_simplified(child, *r),
        tree_ok(*r),
    decreases child,
{
    let ghost whole = child;
    match child {
        FormulaTypes::Integer(n) => Box::new(FormulaTypes::Integer(Integer::opposite(n))),
        FormulaTypes::Float(x) => Box::new(FormulaTypes::Float(Float::opposite(x))),
        FormulaTypes::Negative(n) => n.element,
        FormulaTypes::Addition(a) => {
            let ghost orig = a.elements@;
            let ghost orig_len = a.elements.len();
            let mut rest = a.elements;
            let mut out: Vec<Box<FormulaTypes>> = Vec::new();
            let mut i: usize = 0;
            proof {
                assert(orig.take(0) =~= seq![]);
            }
            while rest.len() > 0
                invariant
                    rest@ == orig.skip(i as int),
                    i <= orig.len(),
                    orig.len() == orig_len,
                    orig_len <= usize::MAX,
                    all_neg_simplified(orig.take(i as int), out@),
                    all_ok(out@),
                    all_ok(orig),
                    whole == FormulaTypes::Addition(a),
                    whole == child,
                    orig == a.elements@,
                decreases rest.len(),
            {
                let e = rest.remove(0);
                proof {
                    assert(e == orig[i as int]);
                    lemma_all_ok_index(orig, i as int);
                    let w = whole->Addition_0;
                    assert(decreases_to!(whole => whole->Addition_0));
                    assert(decreases_to!(w => w.elements));
                    assert(decreases_to!(w.elements => w.elements@));
                    assert(decreases_to!(w.elements@ => w.elements@[i as int]));
                    assert(w.elements@[i as int] == e);
                }
                let u = negate_simplified(*e);
                let ghost before = out@;
                out.push(u);
                i = i + 1;
                proof {
                    assert(rest@ =~= orig.skip(i as int));
                    assert(out@.drop_last() =~= before);
                    assert(orig.take(i as int).drop_last() =~= orig.take(i - 1));
                }
            }
            proof {
                assert(orig.take(i as int) =~= orig);
            }
            Box::new(FormulaTypes::Addition(Addition::new(out)))
        },
    }
}

/// Flattens nested sums, folds every literal into one constant and puts
/// that constant last, leaving it out when it is zero.
fn simplify_sum(sum: Addition) -> (r: Box<FormulaTypes>)
    requires
        all_ok(sum.elements@),
    ensures
        add_simplified(sum.elements@, *r),
        tree_ok(*r),
{
    let ghost ts = sum.elements@;
    let mut flat: Vec<Box<FormulaTypes>> = Vec::new();
    flatten_into(FormulaTypes::Addition(sum), &mut flat);
    let ghost fl = flat@;
    proof {
        assert(fl =~= flatten(ts));
    }
    let ghost fl_len = flat.len();
    let mut kept: Vec<Box<FormulaTypes>> = Vec::new();
    let mut int_sum = Integer::zero();
    let mut float_sum = Float::zero();
    let mut i: usize = 0;
    proof {
        assert(fl.take(0) =~= seq![]);
    }
    while flat.len() > 0
        invariant
            flat@ == fl.skip(i as int),
            i <= fl.len(),
            fl.len() == fl_len,
            fl_len <= usize::MAX,
            all_ok(fl),
            kept@ == non_literals(fl.take(i as int)),
            all_ok(kept@),
            int_sum.wf(),
            int_sum@ == int_total(fl.take(i as int)),
            float_sum.wf(),
            float_sum.value@ == float_total(fl.take(i as int)).0,
            float_sum.scale@ == float_total(fl.take(i as int)).1,
            0 <= float_sum.scale@ <= SCALE_BOUND,
        decreases flat.len(),
    {
        let e = flat.remove(0);
        proof {
            assert(e == fl[i as int]);
            assert(fl.take(i + 1).drop_last() =~= fl.take(i as int));
            assert(fl.take(i + 1).last() == e);
            lemma_all_ok_index(fl, i as int);
        }
        match *e {
            FormulaTypes::Integer(n) => {
                int_sum = Integer::add(int_sum, n);
            },
            FormulaTypes::Float(x) => {
                if !x.is_zero() {
                    float_sum = Float::add(float_sum, x);
                }
            },
            other => {
                let ghost before = kept@;
                kept.push(Box::new(other));
                proof {
                    assert(kept@.drop_last() =~= before);
                }
            },
        }
        i = i + 1;
        proof {
            assert(flat@ =~= fl.skip(i as int));
        }
    }
    proof {
        assert(fl.take(i as int) =~= fl);
    }
    let ghost k = kept@;
    let int_zero = int_sum.is_zero();
    let float_zero = float_sum.is_zero();
    if float_zero {
        if !int_zero {
            kept.push(Box::new(FormulaTypes::Integer(int_sum)));
        }
    } else if int_zero {
        kept.push(Box::new(FormulaTypes::Float(float_sum)));
    } else {
        let total = Float::add(Float::from_integer(int_sum), float_sum);
        if !total.is_zero() {
            kept.push(Box::new(FormulaTypes::Float(total)));
        }
    }
    proof {
        assert(kept@.take(k.len() as int) =~= k);
        assert(all_ok(kept@)) by {
            if kept@.len() > k.len() {
                assert(kept@.drop_last() =~= k);
                assert(tree_ok(*kept@.last()));
            } else {
                assert(kept@ =~= k);
            }
        }
    }
    Box::new(FormulaTypes::Addition(Addition::new(kept)))
}

/// The exact value of the tree; see `eval`. Recursion goes as deep as
/// the tree.
fn calculate_node(f: FormulaTypes) -> (r: Float)
    requires
        tree_ok(f),
    ensures
        r.wf(),
        r.value@ == eval(f).0,
        r.scale@ == eval(f).1,
        -SCALE_BOUND <= r.scale@ <= SCALE_BOUND,
    decreases f,
{
    let ghost whole = f;
    match f {
        FormulaTypes::Integer(n) => Float::from_integer(n),
        FormulaTypes::Float(x) => x,
        FormulaTypes::Negative(n) => {
            proof {
                assert(decreases_to!(whole => whole->Negative_0));
                assert(decreases_to!(whole->Negative_0 => whole->Negative_0.element));
            }
            Float::opposite(calculate_node(*n.element))
        },
        FormulaTypes::Addition(a) => {
            let ghost orig = a.elements@;
            let ghost orig_len = a.elements.len();
            let mut rest = a.elements;
            let mut sum = Float::zero();
            let mut i: usize = 0;
            proof {
                assert(orig.take(0) =~= seq![]);
            }
            while rest.len() > 0
                invariant
                    rest@ == orig.skip(i as int),
                    i <= orig.len(),
                    orig.len() == orig_len,
                    orig_len <= usize::MAX,
                    all_ok(orig),
                    sum.wf(),
                    sum.value@ == eval_sum(orig.take(i as int)).0,
                    sum.scale@ == eval_sum(orig.take(i as int)).1,
                    0 <= sum.scale@ <= SCALE_BOUND,
                    whole == FormulaTypes::Addition(a),
                    whole == f,
                    orig == a.elements@,
                decreases rest.len(),
            {
                let e = rest.remove(0);
                proof {
                    assert(e == orig[i as int]);
                    assert(orig.take(i + 1).drop_last() =~= orig.take(i as int));
                    assert(orig.take(i + 1).last() == e);
                    lemma_all_ok_index(orig, i as int);
                    let w = whole->Addition_0;
                    assert(decreases_to!(whole => whole->Addition_0));
                    assert(decreases_to!(w => w.elements));
                    assert(decreases_to!(w.elements => w.elements@));
                    assert(decreases_to!(w.elements@ => w.elements@[i as int]));
                    assert(w.elements@[i as int] == e);
                }
                let v = calculate_node(*e);
                sum = Float::add(sum, v);
                i = i + 1;
                proof {
                    assert(rest@ =~= orig.skip(i as int));
                }
            }
            proof {
                assert(orig.take(i as int) =~= orig);
            }
            sum
        },
    }
}

impl Addition {
    pub fn new(elements: Vec<Box<FormulaTypes>>) -> (r: Self)
        ensures
            r.elements == elements,
    {
        Self { elements: elements }
    }
}

impl Negative {
    pub fn new(element: Box<FormulaTypes>) -> (r: Self)
        ensures
            r.element == element,
    {
        Self { element: element }
    }
}

/// The two operations of every node: both consume the node.
pub trait Formula: Sized {
    /// The tree that this value stands for.
    spec fn node(&self) -> FormulaTypes;

    /// A new tree in simplified form; see `simplified`.
    fn simplify(self) -> (r: Box<FormulaTypes>)
        requires
            tree_ok(self.node()),
        ensures
            simplified(self.node(), *r),
            tree_ok(*r),
    ;

    /// The exact value of the tree; see `eval`.
    fn calculate(self) -> (r: Float)
        requires
            tree_ok(self.node()),
        ensures
            r.wf(),
            r.value@ == eval(self.node()).0,
            r.scale@ == eval(self.node()).1,
    ;
}

impl Formula for FormulaTypes {
    open spec fn node(&self) -> FormulaTypes {
        *self
    }

    /// A literal stays as it is; a sum and a negation simplify as their
    /// own impls describe.
    fn simplify(self) -> (r: Box<FormulaTypes>) {
        match self {
            FormulaTypes::Integer(n) => Box::new(FormulaTypes::Integer(n)),
            FormulaTypes::Float(x) => Box::new(FormulaTypes::Float(x)),
            FormulaTypes::Addition(a) => simplify_sum(a),
            FormulaTypes::Negative(n) => negate_simplified(*n.element),
        }
    }

    fn calculate(self) -> (r: Float) {
        calculate_node(self)
    }
}

impl Formula for Addition {
    open spec fn node(&self) -> FormulaTypes {
        FormulaTypes::Addition(*self)
    }

    /// Flattens nested sums, folds every literal into one constant and puts
    /// that constant last, leaving it out when it is zero.
    fn simplify(self) -> (r: Box<FormulaTypes>) {
        simplify_sum(self)
    }

    /// The exact sum of the terms, folded left to right from zero.
    fn calculate(self) -> (r: Float) {
        calculate_node(FormulaTypes::Addition(self))
    }
}

impl Formula for Negative {
    open spec fn node(&self) -> FormulaTypes {
        FormulaTypes::Negative(*self)
    }

    /// Pushes the negation down; see `neg_simplified`.
    fn simplify(self) -> (r: Box<FormulaTypes>) {
        negate_simplified(*self.element)
    }

    /// The exact value of the child with its sign flipped.
    fn calculate(self) -> (r: Float) {
        calculate_node(FormulaTypes::Negative(self))
    }
}


/// Two trees that are equal term for term, literals compared by value.
pub open spec fn equivalent(f: FormulaTypes, g: FormulaTypes) -> bool
    decreases f,
{
    match f {
        FormulaTypes::Integer(n) => match g {
            FormulaTypes::Integer(m) => n@ == m@,
            _ => false,
        },
        FormulaTypes::Float(x) => match g {
            FormulaTypes::Float(y) => x.value@ == y.value@ && x.scale@ == y.scale@,
            _ => false,
        },
        FormulaTypes::Addition(a) => match g {
            FormulaTypes::Addition(b) => all_equivalent(a.elements@, b.elements@),
            _ => false,
        },
        FormulaTypes::Negative(n) => match g {
            FormulaTypes::Negative(m) => equivalent(*n.element, *m.element),
            _ => false,
        },
    }
}

pub open spec fn all_equivalent(s: Seq<Box<FormulaTypes>>, u: Seq<Box<FormulaTypes>>) -> bool
    decreases s,
{
    if s.len() == 0 {
        u.len() == 0
    } else {
        &&& u.len() == s.len()
        &&& all_equivalent(s.drop_last(), u.drop_last())
        &&& equivalent(*s.last(), *u.last())
    }
}

/// Simplifying a double negation gives the inner tree back as it is. So
/// for a tree that is already in simplified form (simplifying it gives an
/// equivalent tree), the simplified double negation is equivalent to the
/// simplified tree.
pub proof fn law_double_negation(x: FormulaTypes, r: FormulaTypes, y: FormulaTypes)
    requires
        simplified(
            FormulaTypes::Negative(
                Negative {
                    element: Box::new(
                        FormulaTypes::Negative(Negative { element: Box::new(x) }),
                    ),
                },
            ),
            r,
        ),
        simplified(x, y),
        equivalent(x, y),
    ensures
        r == x,
        equivalent(r, y),
{
}

/// When the folded constant of a sum is zero it is left out: the result
/// holds exactly the flattened terms that are not literals. An empty sum
/// evaluates to zero at scale zero.
pub proof fn law_zero_elision(ts: Seq<Box<FormulaTypes>>, r: FormulaTypes)
    requires
        add_simplified(ts, r),
        folded(flatten(ts)).1 == 0,
    ensures
        r is Addition,
        r->Addition_0.elements@ == non_literals(flatten(ts)),
        eval_sum(seq![]) == (0int, 0int),
{
    let kept = non_literals(flatten(ts));
    assert(r->Addition_0.elements@ =~= r->Addition_0.elements@.take(kept.len() as int));
}

/// A term that is neither a literal nor a sum.
pub open spec fn plain(f: FormulaTypes) -> bool {
    !is_literal(f) && !(f is Addition)
}

proof fn lemma_flatten_no_sum(s: Seq<Box<FormulaTypes>>)
    ensures
        forall|i: int| 0 <= i < flatten(s).len() ==> !((*#[trigger] flatten(s)[i]) is Addition),
    decreases s,
{
    if s.len() > 0 {
        let p = flatten(s.drop_last());
        lemma_flatten_no_sum(s.drop_last());
        match *s.last() {
            FormulaTypes::Addition(a) => {
                assert(decreases_to!(s => s[s.len() - 1]));
                lemma_flatten_no_sum(a.elements@);
                let q = flatten(a.elements@);
                assert forall|i: int| 0 <= i < flatten(s).len() implies !(
                (*#[trigger] flatten(s)[i]) is Addition) by {
                    if i >= p.len() {
                        assert(flatten(s)[i] == q[i - p.len()]);
                    } else {
                        assert(flatten(s)[i] == p[i]);
                    }
                }
            },
            _ => {
                assert forall|i: int| 0 <= i < flatten(s).len() implies !(
                (*#[trigger] flatten(s)[i]) is Addition) by {
                    if i < p.len() {
                        assert(flatten(s)[i] == p[i]);
                    }
                }
            },
        }
    }
}

proof fn lemma_non_literals_plain(s: Seq<Box<FormulaTypes>>)
    requires
        forall|i: int| 0 <= i < s.len() ==> !((*#[trigger] s[i]) is Addition),
    ensures
        forall|i: int|
            0 <= i < non_literals(s).len() ==> plain(*#[trigger] non_literals(s)[i]),
    decreases s.len(),
{
    if s.len() > 0 {
        let p = s.drop_last();
        assert forall|i: int| 0 <= i < p.len() implies !((*#[trigger] p[i]) is Addition) by {
            assert(p[i] == s[i]);
        }
        lemma_non_literals_plain(p);
        assert(!((*s[s.len() - 1]) is Addition));
        let q = non_literals(p);
        if !is_literal(*s.last()) {
            assert forall|i: int| 0 <= i < non_literals(s).len() implies plain(
                *#[trigger] non_literals(s)[i],
            ) by {
                if i < q.len() {
                    assert(non_literals(s)[i] == q[i]);
                }
            }
        }
    }
}

/// A sequence of plain terms flattens and filters to itself and holds no
/// constant.
proof fn lemma_plain_seq(k: Seq<Box<FormulaTypes>>)
    requires
        forall|i: int| 0 <= i < k.len() ==> plain(*#[trigger] k[i]),
    ensures
        flatten(k) == k,
        non_literals(k) == k,
        int_total(k) == 0,
        float_total(k) == (0int, 0int),
    decreases k.len(),
{
    if k.len() > 0 {
        let p = k.drop_last();
        assert forall|i: int| 0 <= i < p.len() implies plain(*#[trigger] p[i]) by {
            assert(p[i] == k[i]);
        }
        lemma_plain_seq(p);
        assert(plain(*k[k.len() - 1]));
        assert(flatten(k) =~= k);
        assert(non_literals(k) =~= k);
    }
}

proof fn lemma_float_total_scale(s: Seq<Box<FormulaTypes>>)
    ensures
        float_total(s).1 >= 0,
    decreases s.len(),
{
    if s.len() > 0 {
        lemma_float_total_scale(s.drop_last());
    }
}

pub proof fn lemma_equivalent_refl(f: FormulaTypes)
    ensures
        equivalent(f, f),
    decreases f,
{
    match f {
        FormulaTypes::Addition(a) => {
            lemma_all_equivalent_refl(a.elements@);
        },
        FormulaTypes::Negative(n) => {
            lemma_equivalent_refl(*n.element);
        },
        _ => {},
    }
}

pub proof fn lemma_all_equivalent_refl(s: Seq<Box<FormulaTypes>>)
    ensures
        all_equivalent(s, s),
    decreases s,
{
    if s.len() > 0 {
        lemma_all_equivalent_refl(s.drop_last());
        assert(decreases_to!(s => s[s.len() - 1]));
        lemma_equivalent_refl(*s.last());
    }
}

proof fn lemma_all_equivalent_pointwise(s: Seq<Box<FormulaTypes>>, u: Seq<Box<FormulaTypes>>)
    requires
        s.len() == u.len(),
        forall|i: int| 0 <= i < s.len() ==> equivalent(*#[trigger] s[i], *u[i]),
    ensures
        all_equivalent(s, u),
    decreases s.len(),
{
    if s.len() > 0 {
        let p = s.drop_last();
        let q = u.drop_last();
        assert forall|i: int| 0 <= i < p.len() implies equivalent(*#[trigger] p[i], *q[i]) by {
            assert(p[i] == s[i] && q[i] == u[i]);
        }
        lemma_all_equivalent_pointwise(p, q);
        assert(equivalent(*s[s.len() - 1], *u[s.len() - 1]));
    }
}

/// Simplifying twice gives the same as simplifying once, term for term and
/// literals by value, for every literal and every sum. (A negation is left
/// out: simplifying it may return a sum that is not yet flattened, or the
/// unsimplified grandchild of a double negation.)
pub proof fn law_simplify_idempotent(t: FormulaTypes, r1: FormulaTypes, r2: FormulaTypes)
    requires
        tree_ok(t),
        !(t is Negative),
        simplified(t, r1),
        simplified(r1, r2),
    ensures
        equivalent(r1, r2),
{
    match t {
        FormulaTypes::Addition(a) => {
            let flat = flatten(a.elements@);
            let k = non_literals(flat);
            let c = folded(flat);
            lemma_flatten_no_sum(a.elements@);
            lemma_non_literals_plain(flat);
            lemma_plain_seq(k);
            lemma_float_total_scale(flat);
            let e1 = r1->Addition_0.elements@;
            let e2 = r2->Addition_0.elements@;
            if c.1 == 0 {
                assert(e1 =~= k);
                assert(folded(flatten(e1)) == (false, 0int, 0int));
                assert(e2 =~= e2.take(k.len() as int));
                assert(e2 =~= e1);
                lemma_all_equivalent_refl(e1);
            } else {
                let last = e1[k.len() as int];
                assert(e1 =~= k.push(last));
                assert(e1.drop_last() =~= k);
                assert(is_constant(*last, c));
                assert(flatten(e1) =~= e1);
                assert(non_literals(e1) =~= k);
                match *last {
                    FormulaTypes::Integer(n) => {
                        assert(int_total(e1) == n@);
                        assert(float_total(e1) == (0int, 0int));
                    },
                    FormulaTypes::Float(x) => {
                        assert(int_total(e1) == 0);
                        assert(c.2 >= 0);
                        assert(pow10(0) == 1);
                        let xv = x.value@;
                        assert(xv * 1 == xv);
                        assert(0int * pow10((max_int(0, x.scale@) - 0) as nat) == 0);
                        assert(float_total(e1) == (x.value@, x.scale@));
                    },
                    _ => {},
                }
                assert forall|i: int| 0 <= i < e1.len() implies equivalent(
                    *#[trigger] e1[i],
                    *e2[i],
                ) by {
                    if i < k.len() {
                        assert(e1[i] == e1.take(k.len() as int)[i]);
                        assert(e2[i] == e2.take(k.len() as int)[i]);
                        lemma_equivalent_refl(*e1[i]);
                    }
                }
                lemma_all_equivalent_pointwise(e1, e2);
            }
        },
        _ => {
            lemma_equivalent_refl(r1);
        },
    }
}

/// A simplified sum is flat: no term is itself a sum, and no term but the
/// last is a literal.
pub proof fn law_simplified_sum_is_flat(ts: Seq<Box<FormulaTypes>>, r: FormulaTypes)
    requires
        add_simplified(ts, r),
    ensures
        r is Addition,
        forall|i: int|
            0 <= i < r->Addition_0.elements@.len() ==> !((*#[trigger] r->Addition_0.elements@[i]) is Addition),
        forall|i: int|
            0 <= i < r->Addition_0.elements@.len() - 1 ==> !is_literal(
                *#[trigger] r->Addition_0.elements@[i],
            ),
{
    let flat = flatten(ts);
    let kept = non_literals(flat);
    let e = r->Addition_0.elements@;
    lemma_flatten_no_sum(ts);
    lemma_non_literals_plain(flat);
    assert forall|i: int| 0 <= i < e.len() implies !((*#[trigger] e[i]) is Addition) by {
        if i < kept.len() {
            assert(e[i] == e.take(kept.len() as int)[i]);
            assert(plain(*kept[i]));
        }
    }
    assert forall|i: int| 0 <= i < e.len() - 1 implies !is_literal(*#[trigger] e[i]) by {
        assert(i < kept.len());
        assert(e[i] == e.take(kept.len() as int)[i]);
        assert(plain(*kept[i]));
    }
}

} // verus!
