//! Goal extraction from boolean bodies.
//!
//! A body built from atoms under AND, OR and NOT is turned into a list of
//! goal conjunctions: `get_goals` walks the tree, `con_and` combines the
//! lists of the two sides of an AND, and `con_neg` negates a list by
//! picking one atom out of every conjunction, in every possible way, with
//! its sign flipped.

use vstd::prelude::*;

use crate::ast::{lemma_node_view_cases, Node, NodeView};

verus! {

/// One signed atom of a goal: a name, and whether it must be false.
#[derive(Debug, Clone)]
pub struct GoalAtom {
    pub name: String,
    pub neg: bool,
}

/// The mathematical image of a signed atom.
pub struct GoalAtomView {
    pub name: Seq<char>,
    pub neg: bool,
}

impl View for GoalAtom {
    type V = GoalAtomView;

    open spec fn view(&self) -> GoalAtomView {
        GoalAtomView { name: self.name@, neg: self.neg }
    }
}

/// The image of a list of goal conjunctions.
pub open spec fn rows_view(v: Seq<Vec<GoalAtom>>) -> Seq<Seq<GoalAtomView>> {
    v.map_values(|row: Vec<GoalAtom>| row@.map_values(|a: GoalAtom| a@))
}

/// All conjunctions of a list, joined into one, in order.
pub open spec fn flat(s: Seq<Seq<GoalAtomView>>) -> Seq<GoalAtomView>
    decreases s.len(),
{
    if s.len() == 0 {
        Seq::empty()
    } else {
        s.first() + flat(s.drop_first())
    }
}

/// What combining under AND yields: every conjunction of the right side is
/// drained into the first conjunction of the left side; the other left
/// conjunctions stay as they are. An empty left side stays empty.
pub open spec fn and_goals(
    a: Seq<Seq<GoalAtomView>>,
    b: Seq<Seq<GoalAtomView>>,
) -> Seq<Seq<GoalAtomView>> {
    if a.len() == 0 {
        a
    } else {
        a.update(0, a[0] + flat(b))
    }
}

/// The atom with its sign flipped.
pub open spec fn neg_atom(a: GoalAtomView) -> GoalAtomView {
    GoalAtomView { name: a.name, neg: !a.neg }
}

/// For one atom of the first conjunction: every tail conjunction extended
/// by that atom, negated; atoms are taken in order.
pub open spec fn cross(
    first: Seq<GoalAtomView>,
    tail: Seq<Seq<GoalAtomView>>,
) -> Seq<Seq<GoalAtomView>>
    decreases first.len(),
{
    if first.len() == 0 {
        Seq::empty()
    } else {
        tail.map_values(|t: Seq<GoalAtomView>| t.push(neg_atom(first.first()))) + cross(
            first.drop_first(),
            tail,
        )
    }
}

/// What negating a list of conjunctions yields: one conjunction for every
/// way of picking an atom out of each of the given conjunctions, each picked
/// atom negated.
pub open spec fn neg_goals(s: Seq<Seq<GoalAtomView>>) -> Seq<Seq<GoalAtomView>>
    decreases s.len(),
{
    if s.len() == 0 {
        seq![Seq::<GoalAtomView>::empty()]
    } else {
        cross(s.first(), neg_goals(s.drop_first()))
    }
}

/// A body that goals can be read from: atoms under AND, OR and NOT alone.
pub open spec fn is_goal_expr(n: NodeView) -> bool
    decreases n,
{
    match n {
        NodeView::Atom(_) => true,
        NodeView::And(a, b) => is_goal_expr(*a) && is_goal_expr(*b),
        NodeView::Or(a, b) => is_goal_expr(*a) && is_goal_expr(*b),
        NodeView::Neg(a) => is_goal_expr(*a),
        _ => false,
    }
}

/// The goal conjunctions of a body.
pub open spec fn goals_of(n: NodeView) -> Seq<Seq<GoalAtomView>>
    decreases n,
{
    match n {
        NodeView::Atom(x) => seq![seq![GoalAtomView { name: x, neg: false }]],
        NodeView::And(a, b) => and_goals(goals_of(*a), goals_of(*b)),
        NodeView::Or(a, b) => goals_of(*a) + goals_of(*b),
        NodeView::Neg(a) => neg_goals(goals_of(*a)),
        _ => Seq::empty(),
    }
}

/// The image of one conjunction.
pub open spec fn row_view(r: Seq<GoalAtom>) -> Seq<GoalAtomView> {
    r.map_values(|a: GoalAtom| a@)
}

/// A copy of one conjunction.
fn copy_row(r: &Vec<GoalAtom>) -> (c: Vec<GoalAtom>)
    ensures
        row_view(c@) == row_view(r@),
{
    let mut c: Vec<GoalAtom> = Vec::new();
    let mut i: usize = 0;
    while i < r.len()
        invariant
            i <= r@.len(),
            c@.len() == i,
            forall|t: int| 0 <= t < i ==> (#[trigger] c@[t])@ == r@[t]@,
        decreases r@.len() - i,
    {
        let a = &r[i];
        c.push(GoalAtom { name: a.name.clone(), neg: a.neg });
        i = i + 1;
    }
    proof {
        assert(row_view(c@) =~= row_view(r@));
    }
    c
}

/// A copy of a list of conjunctions.
fn copy_rows(v: &Vec<Vec<GoalAtom>>) -> (c: Vec<Vec<GoalAtom>>)
    ensures
        rows_view(c@) == rows_view(v@),
{
    let mut c: Vec<Vec<GoalAtom>> = Vec::new();
    let mut i: usize = 0;
    while i < v.len()
        invariant
            i <= v@.len(),
            c@.len() == i,
            forall|t: int| 0 <= t < i ==> row_view((#[trigger] c@[t])@) == row_view(v@[t]@),
        decreases v@.len() - i,
    {
        let row = copy_row(&v[i]);
        c.push(row);
        i = i + 1;
    }
    proof {
        assert(rows_view(c@) =~= rows_view(v@));
    }
    c
}

/// Combines the two sides of an AND: returns a copy of the left list whose
/// first conjunction has received every right conjunction in order, and
/// drains the right conjunctions; with an empty left side nothing happens.
pub fn con_and(lh: &mut Vec<Vec<GoalAtom>>, rh: &mut Vec<Vec<GoalAtom>>) -> (r: Vec<
    Vec<GoalAtom>,
>)
    ensures
        final(lh)@ == old(lh)@,
        rows_view(r@) == and_goals(rows_view(old(lh)@), rows_view(old(rh)@)),
        old(lh)@.len() == 0 ==> final(rh)@ == old(rh)@,
        old(lh)@.len() > 0 ==> final(rh)@.len() == old(rh)@.len() && (forall|i: int|
            0 <= i < final(rh)@.len() ==> (#[trigger] final(rh)@[i])@.len() == 0),
{
    let mut ret = copy_rows(lh);
    if ret.len() > 0 {
        let mut first = ret.remove(0);
        let ghost f0 = first@.map_values(|a: GoalAtom| a@);
        let ghost origr = rows_view(rh@);
        let mut emptied: Vec<Vec<GoalAtom>> = Vec::new();
        proof {
            assert(rows_view(rh@).skip(0) =~~= rows_view(rh@));
        }
        while rh.len() > 0
            invariant
                emptied@.len() + rh@.len() == origr.len(),
                forall|i: int| 0 <= i < emptied@.len() ==> (#[trigger] emptied@[i])@.len() == 0,
                f0 + flat(origr) =~= first@.map_values(|a: GoalAtom| a@) + flat(rows_view(rh@)),
                origr.len() >= rh@.len(),
            decreases rh@.len(),
        {
            let ghost prevr = rows_view(rh@);
            let mut row = rh.remove(0);
            proof {
                assert(rows_view(rh@) =~~= prevr.drop_first());
            }
            first.append(&mut row);
            emptied.push(row);
        }
        proof {
            assert(flat(rows_view(rh@)) =~= Seq::<GoalAtomView>::empty());
            assert(first@.map_values(|a: GoalAtom| a@) =~= f0 + flat(origr));
        }
        *rh = emptied;
        ret.insert(0, first);
        proof {
            assert(rows_view(ret@) =~~= and_goals(rows_view(old(lh)@), origr));
        }
    } else {
        proof {
            assert(rows_view(ret@) =~~= and_goals(rows_view(old(lh)@), rows_view(old(rh)@)));
        }
    }
    ret
}

/// Negates a list of conjunctions from the tail up.
#[verifier::rlimit(50)]
fn con_neg_from(goals: &Vec<Vec<GoalAtom>>, i: usize) -> (r: Vec<Vec<GoalAtom>>)
    requires
        i <= goals@.len(),
    ensures
        rows_view(r@) == neg_goals(rows_view(goals@).skip(i as int)),
    decreases goals@.len() - i,
{
    if i == goals.len() {
        let mut r: Vec<Vec<GoalAtom>> = Vec::new();
        let empty_row: Vec<GoalAtom> = Vec::new();
        r.push(empty_row);
        proof {
            assert(rows_view(goals@).skip(i as int) =~~= Seq::<Seq<GoalAtomView>>::empty());
            assert(rows_view(r@) =~~= seq![Seq::<GoalAtomView>::empty()]);
        }
        r
    } else {
        let tail = con_neg_from(goals, i + 1);
        let ghost tv = rows_view(tail@);
        let first = &goals[i];
        let ghost fv = first@.map_values(|a: GoalAtom| a@);
        let mut out: Vec<Vec<GoalAtom>> = Vec::new();
        let mut j: usize = 0;
        proof {
            assert(fv.skip(0) =~= fv);
        }
        while j < first.len()
            invariant
                j <= fv.len(),
                fv.len() == first@.len(),
                fv == first@.map_values(|a: GoalAtom| a@),
                tv == rows_view(tail@),
                tail@.len() == tv.len(),
                cross(fv, tv) =~~= rows_view(out@) + cross(fv.skip(j as int), tv),
            decreases fv.len() - j,
        {
            let v = &first[j];
            let mut k: usize = 0;
            let ghost outpre = rows_view(out@);
            let ghost blk = tv.map_values(
                |t: Seq<GoalAtomView>| t.push(neg_atom(fv[j as int])),
            );
            while k < tail.len()
                invariant
                    k <= tail@.len(),
                    tv == rows_view(tail@),
                    tail@.len() == tv.len(),
                    fv.len() == first@.len(),
                    fv == first@.map_values(|a: GoalAtom| a@),
                    j < fv.len(),
                    v@ == fv[j as int],
                    blk == tv.map_values(
                        |t: Seq<GoalAtomView>| t.push(neg_atom(fv[j as int])),
                    ),
                    rows_view(out@) =~~= outpre + blk.take(k as int),
                decreases tail@.len() - k,
            {
                let mut row = copy_row(&tail[k]);
                row.push(GoalAtom { name: v.name.clone(), neg: !v.neg });
                let ghost rowv = row@;
                let ghost outold = out@;
                out.push(row);
                proof {
                    assert(rows_view(out@) =~~= rows_view(outold).push(row_view(rowv)));
                    assert(row_view(rowv) =~= row_view(tail@[k as int]@).push(
                        neg_atom(fv[j as int]),
                    ));
                    assert(tv[k as int] == row_view(tail@[k as int]@));
                    assert(blk[k as int] == tv[k as int].push(neg_atom(fv[j as int])));
                    assert(blk.take(k + 1 as int) =~~= blk.take(k as int).push(blk[k as int]));
                    assert(rows_view(out@) =~~= outpre + blk.take(k + 1 as int));
                }
                k = k + 1;
            }
            proof {
                assert(blk.take(tv.len() as int) =~~= blk);
                assert(fv.skip(j as int).first() == fv[j as int]);
                assert(fv.skip(j as int).drop_first() =~~= fv.skip(j + 1 as int));
                assert(cross(fv.skip(j as int), tv) =~~= blk + cross(fv.skip(j + 1 as int), tv));
                assert(rows_view(out@) + cross(fv.skip(j + 1 as int), tv) =~~= cross(fv, tv));
            }
            j = j + 1;
        }
        proof {
            assert(cross(fv.skip(fv.len() as int), tv) =~~= Seq::<Seq<GoalAtomView>>::empty());
            assert(rows_view(out@) =~~= cross(fv, tv));
            assert(rows_view(goals@).skip(i as int).first() == fv);
            assert(rows_view(goals@).skip(i as int).drop_first() =~~= rows_view(goals@).skip(
                i + 1 as int,
            ));
        }
        out
    }
}

/// Negates a list of conjunctions: one result conjunction for every way of
/// picking an atom out of each of the given conjunctions, each picked atom with
/// its sign flipped.
pub fn con_neg(goals: &Vec<Vec<GoalAtom>>) -> (r: Vec<Vec<GoalAtom>>)
    ensures
        rows_view(r@) == neg_goals(rows_view(goals@)),
{
    let r = con_neg_from(goals, 0);
    proof {
        assert(rows_view(goals@).skip(0) =~~= rows_view(goals@));
    }
    r
}

/// Reads the goal conjunctions out of a body of atoms under AND, OR and
/// NOT.
pub fn get_goals(ast: &Node) -> (r: Vec<Vec<GoalAtom>>)
    requires
        is_goal_expr(ast@),
    ensures
        rows_view(r@) == goals_of(ast@),
    decreases ast,
{
    match ast {
        Node::And(lh, rh) => {
            let mut lg = get_goals(lh);
            let mut rg = get_goals(rh);
            con_and(&mut lg, &mut rg)
        },
        Node::Or(lh, rh) => {
            let mut lg = get_goals(lh);
            let mut rg = get_goals(rh);
            let ghost lv = rows_view(lg@);
            let ghost rv = rows_view(rg@);
            lg.append(&mut rg);
            proof {
                assert(rows_view(lg@) =~~= lv + rv);
            }
            lg
        },
        Node::Atom(x) => {
            let mut row: Vec<GoalAtom> = Vec::new();
            row.push(GoalAtom { name: x.clone(), neg: false });
            let mut r: Vec<Vec<GoalAtom>> = Vec::new();
            r.push(row);
            proof {
                assert(rows_view(r@) =~~= goals_of(ast@));
            }
            r
        },
        Node::Neg(x) => {
            let g = get_goals(x);
            con_neg(&g)
        },
        _ => {
            proof {
                lemma_node_view_cases(ast);
                assert(false);
            }
            Vec::new()
        },
    }
}

} // verus!
