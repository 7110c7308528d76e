//! The parse tree: grammar rules and the nodes that match them.

use vstd::prelude::*;

verus! {

/// The rules of the workout grammar.  Leaf rules (`name`, `weight`, `reps`,
/// `comment`) match a span of text; composite rules (`workout`, `exercise`,
/// `set`) carry ordered children.
#[allow(non_camel_case_types)]
#[derive(Debug, Clone, Copy, PartialEq, Eq, Structural)]
pub enum Rule {
    workout,
    exercise,
    name,
    set,
    weight,
    reps,
    comment,
}

/// One node of the parse tree.  A leaf node carries the text span it
/// matched and no children; a composite node carries its children in
/// source order and an empty text.
#[derive(Debug, PartialEq)]
pub struct Pair {
    pub rule: Rule,
    pub text: String,
    pub children: Vec<Pair>,
}

/// The mathematical shape of a parse-tree node: the same tree with every
/// text span read as a sequence of characters.
pub struct PairView {
    pub rule: Rule,
    pub text: Seq<char>,
    pub children: Seq<PairView>,
}

/// The view of a tree node: its rule, the view of its text, and the views
/// of its children.
pub open spec fn pair_view(p: Pair) -> PairView
    decreases p,
{
    PairView { rule: p.rule, text: p.text@, children: pairs_view(p.children@) }
}

/// The views of a sequence of tree nodes, element by element.
pub open spec fn pairs_view(v: Seq<Pair>) -> Seq<PairView>
    decreases v,
{
    if v.len() == 0 {
        Seq::empty()
    } else {
        pairs_view(v.drop_last()).push(pair_view(v.last()))
    }
}

impl View for Pair {
    type V = PairView;

    open spec fn view(&self) -> PairView {
        pair_view(*self)
    }
}

/// `pairs_view` maps each element to its view and keeps the length.
pub proof fn lemma_pairs_view_index(v: Seq<Pair>)
    ensures
        pairs_view(v).len() == v.len(),
        forall|i: int| 0 <= i < v.len() ==> pairs_view(v)[i] == pair_view(#[trigger] v[i]),
    decreases v.len(),
{
    if v.len() > 0 {
        lemma_pairs_view_index(v.drop_last());
        assert(forall|i: int|
            0 <= i < v.len() - 1 ==> v.drop_last()[i] == #[trigger] v[i]);
    }
}

/// `pairs_view` distributes over `push`.
pub proof fn lemma_pairs_view_push(v: Seq<Pair>, x: Pair)
    ensures
        pairs_view(v.push(x)) == pairs_view(v).push(pair_view(x)),
{
    assert(v.push(x).drop_last() =~= v);
    assert(v.push(x).last() == x);
}

/// The views of a two-element sequence of nodes.
pub proof fn lemma_pairs_view2(a: Pair, b: Pair)
    ensures
        pairs_view(seq![a, b]) == seq![pair_view(a), pair_view(b)],
{
    assert(Seq::<Pair>::empty().push(a) =~= seq![a]);
    assert(seq![a].push(b) =~= seq![a, b]);
    lemma_pairs_view_push(Seq::<Pair>::empty(), a);
    lemma_pairs_view_push(seq![a], b);
    assert(pairs_view(Seq::<Pair>::empty()) =~= Seq::<PairView>::empty());
    assert(Seq::<PairView>::empty().push(pair_view(a)).push(pair_view(b)) =~= seq![
        pair_view(a),
        pair_view(b),
    ]);
}

/// The views of a three-element sequence of nodes.
pub proof fn lemma_pairs_view3(a: Pair, b: Pair, c: Pair)
    ensures
        pairs_view(seq![a, b, c]) == seq![pair_view(a), pair_view(b), pair_view(c)],
{
    lemma_pairs_view2(a, b);
    assert(seq![a, b].push(c) =~= seq![a, b, c]);
    lemma_pairs_view_push(seq![a, b], c);
    assert(seq![pair_view(a), pair_view(b)].push(pair_view(c)) =~= seq![
        pair_view(a),
        pair_view(b),
        pair_view(c),
    ]);
}

impl Pair {
    /// The rule this node matched.
    pub fn as_rule(&self) -> (r: Rule)
        ensures
            r == self@.rule,
    {
        self.rule
    }

    /// The text span this node matched; empty for composite nodes.
    pub fn as_str(&self) -> (r: &str)
        ensures
            r@ == self@.text,
    {
        self.text.as_str()
    }
}

} // verus!
