//! The fact store and query engine.
//!
//! `add_fact` unpacks a `Fact` AST node into a stored fact and appends it to
//! the bucket of its predicate name, in insertion order; `add_query` pushes
//! the fact of a `Query` node onto a pending-query stack; `query_fact`
//! scans the queried predicate's bucket in insertion order and returns the
//! first stored fact that matches, where a variable in either operand is a
//! wildcard and two atoms ask for exactly equal text.

use vstd::prelude::*;

use crate::ast::{lemma_node_view_cases, Node, NodeView};

verus! {

/// An argument of a stored fact: a ground atom or a wildcard variable.
#[derive(Debug, PartialEq)]
pub enum Name {
    Atom(String),
    Variable(String),
}

/// The mathematical image of an argument.
pub enum NameView {
    Atom(Seq<char>),
    Variable(Seq<char>),
}

impl View for Name {
    type V = NameView;

    open spec fn view(&self) -> NameView {
        match self {
            Name::Atom(s) => NameView::Atom(s@),
            Name::Variable(s) => NameView::Variable(s@),
        }
    }
}

/// The mathematical image of a stored fact: its predicate name and its
/// ordered arguments.
pub struct FactView {
    pub universe: Seq<char>,
    pub args: Seq<NameView>,
}

/// A stored fact, immutable once created.
#[derive(Debug)]
pub struct Fact {
    len: usize,
    universe: String,
    args: Vec<Name>,
}

impl View for Fact {
    type V = FactView;

    closed spec fn view(&self) -> FactView {
        FactView { universe: self.universe@, args: self.args@.map_values(|a: Name| a@) }
    }
}

/// One argument pair is compatible when either side is a variable, or both
/// are atoms with exactly equal text.
pub open spec fn arg_compat(a: NameView, b: NameView) -> bool {
    match (a, b) {
        (NameView::Atom(x), NameView::Atom(y)) => x == y,
        _ => true,
    }
}

/// A candidate matches a query when the arities agree and every argument
/// pair is compatible. This is shallow pattern matching: variables bind
/// nothing, so repeated variables are never correlated.
pub open spec fn fact_matches(c: FactView, q: FactView) -> bool {
    c.args.len() == q.args.len() && (forall|i: int|
        0 <= i < c.args.len() ==> arg_compat(#[trigger] c.args[i], q.args[i]))
}

impl Fact {
    #[verifier::type_invariant]
    spec fn wf(&self) -> bool {
        self.len == self.args@.len()
    }

    /// A stored fact with the given predicate name and arguments.
    pub fn new(name: String, args: Vec<Name>) -> (r: Self)
        ensures
            r@.universe == name@,
            r@.args == args@.map_values(|a: Name| a@),
    {
        Fact { len: args.len(), universe: name, args }
    }

    /// The predicate name.
    pub fn universe(&self) -> (r: &String)
        ensures
            r@ == self@.universe,
    {
        &self.universe
    }

    /// The arguments, in order.
    pub fn args(&self) -> (r: &Vec<Name>)
        ensures
            r@.map_values(|a: Name| a@) == self@.args,
    {
        &self.args
    }

    /// The number of argument positions.
    pub fn arity(&self) -> (r: usize)
        ensures
            r == self@.args.len(),
    {
        proof {
            use_type_invariant(self);
        }
        self.len
    }

    /// Whether this fact matches `other`: equal arity, and argument pairs
    /// compatible position by position.
    pub fn matches(&self, other: &Fact) -> (r: bool)
        ensures
            r == fact_matches(self@, other@),
    {
        proof {
            use_type_invariant(self);
            use_type_invariant(other);
        }
        if self.len != other.len {
            return false;
        }
        let mut i: usize = 0;
        while i < self.len
            invariant
                self.len == self.args@.len(),
                other.len == other.args@.len(),
                self.len == other.len,
                i <= self.len,
                forall|k: int| 0 <= k < i ==> arg_compat(#[trigger] self@.args[k], other@.args[k]),
            decreases self.len - i,
        {
            let a = &self.args[i];
            let b = &other.args[i];
            match (a, b) {
                (Name::Variable(_), Name::Atom(_)) => {},
                (Name::Atom(_), Name::Variable(_)) => {},
                (Name::Variable(_), Name::Variable(_)) => {},
                (Name::Atom(x), Name::Atom(y)) => {
                    if !x.eq(y) {
                        assert(!arg_compat(self@.args[i as int], other@.args[i as int]));
                        return false;
                    }
                },
            }
            i = i + 1;
        }
        true
    }
}

/// The arguments a well-shaped `Atoms` chain unpacks to, oldest first;
/// `None` when some node in the chain has an unexpected shape.
pub open spec fn unpack_args(n: Option<Box<NodeView>>) -> Option<Seq<NameView>>
    decreases n,
{
    match n {
        None => Some(Seq::empty()),
        Some(b) => match *b {
            NodeView::Atoms(h, t) => {
                let head = match *h {
                    NodeView::Atom(x) => Some(NameView::Atom(x)),
                    NodeView::Variable(x) => Some(NameView::Variable(x)),
                    _ => None,
                };
                match (head, unpack_args(t)) {
                    (Some(a), Some(rest)) => Some(seq![a] + rest),
                    _ => None,
                }
            },
            _ => None,
        },
    }
}

/// The image of an optional child node.
pub open spec fn opt_view(o: Option<Box<Node>>) -> Option<Box<NodeView>> {
    match o {
        Some(b) => Some(Box::new((*b).view())),
        None => None,
    }
}

/// The stored fact a `Fact` AST node unpacks to; `None` for any other node
/// shape.
pub open spec fn unpack_fact_view(n: NodeView) -> Option<FactView> {
    match n {
        NodeView::Fact(name, args) => match unpack_args(args) {
            Some(s) => Some(FactView { universe: name, args: s }),
            None => None,
        },
        _ => None,
    }
}

/// What a store operation can reject: a node that is not the expected
/// variant, or an argument chain of an unexpected shape.
#[derive(Debug, PartialEq, Eq, Structural, Clone, Copy)]
pub enum StoreError {
    BadFact,
    NotAQuery,
}

/// All stored facts of one predicate name, in insertion order.
#[derive(Debug)]
struct Bucket {
    name: String,
    entries: Vec<Fact>,
}

/// The facts a bucket holds, as their images.
spec fn entries_view(b: Bucket) -> Seq<FactView> {
    b.entries@.map_values(|f: Fact| f@)
}

/// First-wins lookup of a predicate name among the buckets.
spec fn bucket_lookup(s: Seq<Bucket>, k: Seq<char>) -> Option<Seq<FactView>>
    decreases s.len(),
{
    if s.len() == 0 {
        None
    } else if s.first().name@ == k {
        Some(entries_view(s.first()))
    } else {
        bucket_lookup(s.drop_first(), k)
    }
}

spec fn bucket_lookup_val(s: Seq<Bucket>, k: Seq<char>) -> Seq<FactView> {
    match bucket_lookup(s, k) {
        Some(v) => v,
        None => Seq::empty(),
    }
}

/// The mathematical image of the store: predicate name to stored facts,
/// and the pending queries.
pub struct EnvView {
    pub facts: Map<Seq<char>, Seq<FactView>>,
    pub queries: Seq<FactView>,
}

/// The fact store: buckets of stored facts keyed by predicate name, and a
/// transient stack of pending query facts.
#[derive(Debug)]
pub struct Env {
    facts: Vec<Bucket>,
    pub queries: Vec<Fact>,
}

impl View for Env {
    type V = EnvView;

    closed spec fn view(&self) -> EnvView {
        EnvView {
            facts: Map::new(
                |k: Seq<char>| bucket_lookup(self.facts@, k) is Some,
                |k: Seq<char>| bucket_lookup_val(self.facts@, k),
            ),
            queries: self.queries@.map_values(|f: Fact| f@),
        }
    }
}

/// What is stored under a predicate name: its bucket, or nothing yet.
pub open spec fn stored_under(m: Map<Seq<char>, Seq<FactView>>, k: Seq<char>) -> Seq<FactView> {
    if m.contains_key(k) {
        m[k]
    } else {
        Seq::empty()
    }
}

/// The first stored fact matching the query, scanning in insertion order.
pub open spec fn first_match(s: Seq<FactView>, q: FactView) -> Option<FactView>
    decreases s.len(),
{
    if s.len() == 0 {
        None
    } else if fact_matches(s.first(), q) {
        Some(s.first())
    } else {
        first_match(s.drop_first(), q)
    }
}

/// Unpacks an argument chain into a vector of arguments, oldest first.
fn unpack_args_exec(args: &Option<Box<Node>>) -> (r: Option<Vec<Name>>)
    ensures
        match r {
            Some(v) => unpack_args(opt_view(*args)) == Some(v@.map_values(|a: Name| a@)),
            None => unpack_args(opt_view(*args)) is None,
        },
    decreases args,
{
    match args {
        None => {
            let v: Vec<Name> = Vec::new();
            proof {
                assert(v@.map_values(|a: Name| a@) =~= Seq::<NameView>::empty());
            }
            Some(v)
        },
        Some(b) => match &**b {
            Node::Atoms(h, t) => {
                let head = match &**h {
                    Node::Atom(x) => Name::Atom(x.clone()),
                    Node::Variable(x) => Name::Variable(x.clone()),
                    _ => {
                        proof {
                            lemma_node_view_cases(h);
                        }
                        return None;
                    },
                };
                match unpack_args_exec(t) {
                    Some(mut rest) => {
                        let ghost hv = head@;
                        let ghost restv = rest@;
                        rest.insert(0, head);
                        proof {
                            assert(rest@.map_values(|a: Name| a@) =~= seq![hv]
                                + restv.map_values(|a: Name| a@));
                        }
                        Some(rest)
                    },
                    None => None,
                }
            },
            _ => {
                proof {
                    lemma_node_view_cases(b);
                }
                None
            },
        },
    }
}

/// Finds the first bucket carrying `name`.
fn find_bucket(facts: &Vec<Bucket>, name: &String) -> (r: Option<usize>)
    ensures
        match r {
            Some(i) => i < facts@.len() && facts@[i as int].name@ == name@ && (forall|j: int|
                0 <= j < i ==> facts@[j].name@ != name@),
            None => forall|j: int| 0 <= j < facts@.len() ==> facts@[j].name@ != name@,
        },
{
    let mut i: usize = 0;
    while i < facts.len()
        invariant
            i <= facts@.len(),
            forall|j: int| 0 <= j < i ==> facts@[j].name@ != name@,
        decreases facts@.len() - i,
    {
        let b = &facts[i];
        if b.name.eq(name) {
            return Some(i);
        }
        i = i + 1;
    }
    None
}

/// First-wins lookup finds the bucket that a scan stops at.
proof fn lemma_bucket_lookup_at(s: Seq<Bucket>, i: int)
    requires
        0 <= i < s.len(),
        forall|j: int| 0 <= j < i ==> s[j].name@ != s[i].name@,
    ensures
        bucket_lookup(s, s[i].name@) == Some(entries_view(s[i])),
    decreases i,
{
    if i > 0 {
        assert(s.drop_first()[i - 1] == s[i]);
        assert forall|j: int| 0 <= j < i - 1 implies (#[trigger] s.drop_first()[j]).name@
            != s.drop_first()[i - 1].name@ by {
            assert(s.drop_first()[j] == s[j + 1]);
        }
        lemma_bucket_lookup_at(s.drop_first(), i - 1);
    }
}

/// A name no bucket carries looks up to nothing.
proof fn lemma_bucket_lookup_none(s: Seq<Bucket>, k: Seq<char>)
    requires
        forall|j: int| 0 <= j < s.len() ==> s[j].name@ != k,
    ensures
        bucket_lookup(s, k) is None,
    decreases s.len(),
{
    if s.len() > 0 {
        assert forall|j: int| 0 <= j < s.drop_first().len() implies (#[trigger] s.drop_first()[j]).name@
            != k by {
            assert(s.drop_first()[j] == s[j + 1]);
        }
        lemma_bucket_lookup_none(s.drop_first(), k);
    }
}

/// Replacing the first bucket of a name changes that name's lookup alone.
proof fn lemma_bucket_lookup_update(s: Seq<Bucket>, i: int, b: Bucket, k: Seq<char>)
    requires
        0 <= i < s.len(),
        s[i].name@ == b.name@,
        forall|j: int| 0 <= j < i ==> s[j].name@ != b.name@,
    ensures
        bucket_lookup(s.update(i, b), k) == (if k == b.name@ {
            Some(entries_view(b))
        } else {
            bucket_lookup(s, k)
        }),
    decreases i,
{
    let s2 = s.update(i, b);
    if i == 0 {
        assert(s2.first() == b);
        if k != b.name@ {
            assert(s2.drop_first() =~= s.drop_first());
        }
    } else {
        assert(s2.first() == s.first());
        assert(s2.drop_first() =~= s.drop_first().update(i - 1, b));
        assert(s.drop_first()[i - 1] == s[i]);
        assert forall|j: int| 0 <= j < i - 1 implies (#[trigger] s.drop_first()[j]).name@
            != b.name@ by {
            assert(s.drop_first()[j] == s[j + 1]);
        }
        lemma_bucket_lookup_update(s.drop_first(), i - 1, b, k);
    }
}

/// Appending a bucket of a fresh name changes that name's lookup alone.
proof fn lemma_bucket_lookup_append(s: Seq<Bucket>, b: Bucket, k: Seq<char>)
    requires
        forall|j: int| 0 <= j < s.len() ==> s[j].name@ != b.name@,
    ensures
        bucket_lookup(s.push(b), k) == (if k == b.name@ {
            Some(entries_view(b))
        } else {
            bucket_lookup(s, k)
        }),
    decreases s.len(),
{
    if s.len() == 0 {
        assert(s.push(b).first() == b);
        assert(s.push(b).drop_first() =~= Seq::<Bucket>::empty());
    } else {
        assert(s.push(b).first() == s.first());
        assert(s.push(b).drop_first() =~= s.drop_first().push(b));
        assert forall|j: int| 0 <= j < s.drop_first().len() implies (#[trigger] s.drop_first()[j]).name@
            != b.name@ by {
            assert(s.drop_first()[j] == s[j + 1]);
        }
        lemma_bucket_lookup_append(s.drop_first(), b, k);
    }
}

impl Env {
    /// An empty store.
    pub fn new() -> (r: Self)
        ensures
            r@.facts == Map::<Seq<char>, Seq<FactView>>::empty(),
            r@.queries == Seq::<FactView>::empty(),
    {
        let r = Env { facts: Vec::new(), queries: Vec::new() };
        proof {
            assert(r@.facts =~= Map::<Seq<char>, Seq<FactView>>::empty());
            assert(r@.queries =~= Seq::<FactView>::empty());
        }
        r
    }

    /// Unpacks a `Fact` AST node into a stored fact; `None` for any other
    /// node shape or a malformed argument chain.
    pub fn unpack_fact(&self, ast: &Node) -> (r: Option<Fact>)
        ensures
            match r {
                Some(f) => unpack_fact_view(ast@) == Some(f@),
                None => unpack_fact_view(ast@) is None,
            },
    {
        match ast {
            Node::Fact(name, args) => {
                proof {
                    assert(ast@ == NodeView::Fact(name@, opt_view(*args)));
                }
                match unpack_args_exec(args) {
                    Some(v) => Some(Fact { len: v.len(), universe: name.clone(), args: v }),
                    None => None,
                }
            },
            _ => {
                proof {
                    lemma_node_view_cases(ast);
                }
                None
            },
        }
    }

    /// Stores the fact of a `Fact` AST node under its predicate name,
    /// appending to the bucket in insertion order and creating the bucket
    /// if the name is new. Rejects any other node shape, leaving the store
    /// unchanged.
    pub fn add_fact(&mut self, ast: &Node) -> (r: Result<(), StoreError>)
        ensures
            match unpack_fact_view(ast@) {
                Some(f) => r is Ok && final(self)@.facts == old(self)@.facts.insert(
                    f.universe,
                    stored_under(old(self)@.facts, f.universe) + seq![f],
                ) && final(self)@.queries == old(self)@.queries,
                None => r == Err::<(), StoreError>(StoreError::BadFact) && final(self)@.facts
                    == old(self)@.facts && final(self)@.queries == old(self)@.queries,
            },
    {
        let fact = match self.unpack_fact(ast) {
            Some(f) => f,
            None => {
                return Err(StoreError::BadFact);
            },
        };
        let ghost fv = fact@;
        let ghost olds = self.facts@;
        match find_bucket(&self.facts, &fact.universe) {
            Some(i) => {
                let mut b = self.facts.remove(i);
                let ghost oldb = b;
                b.entries.push(fact);
                let ghost newb = b;
                self.facts.insert(i, b);
                proof {
                    assert(self.facts@ =~= olds.update(i as int, newb));
                    assert(entries_view(newb) =~= entries_view(oldb) + seq![fv]);
                    lemma_bucket_lookup_at(olds, i as int);
                    assert forall|k: Seq<char>|
                        bucket_lookup(self.facts@, k) == (if k == fv.universe {
                            Some(entries_view(oldb) + seq![fv])
                        } else {
                            bucket_lookup(olds, k)
                        }) by {
                        lemma_bucket_lookup_update(olds, i as int, newb, k);
                    }
                    assert(self@.facts =~= old(self)@.facts.insert(
                        fv.universe,
                        stored_under(old(self)@.facts, fv.universe) + seq![fv],
                    ));
                }
            },
            None => {
                let name = fact.universe.clone();
                let mut entries: Vec<Fact> = Vec::new();
                entries.push(fact);
                let b = Bucket { name, entries };
                let ghost newb = b;
                self.facts.push(b);
                proof {
                    assert(self.facts@ =~= olds.push(newb));
                    assert(entries_view(newb) =~= Seq::<FactView>::empty() + seq![fv]);
                    lemma_bucket_lookup_none(olds, fv.universe);
                    assert forall|k: Seq<char>|
                        bucket_lookup(self.facts@, k) == (if k == fv.universe {
                            Some(Seq::<FactView>::empty() + seq![fv])
                        } else {
                            bucket_lookup(olds, k)
                        }) by {
                        lemma_bucket_lookup_append(olds, newb, k);
                    }
                    assert(self@.facts =~= old(self)@.facts.insert(
                        fv.universe,
                        stored_under(old(self)@.facts, fv.universe) + seq![fv],
                    ));
                }
            },
        }
        Ok(())
    }

    /// Pushes the fact of a `Query` AST node onto the pending-query stack.
    /// Rejects any other node shape, leaving the store unchanged.
    pub fn add_query(&mut self, ast: &Node) -> (r: Result<(), StoreError>)
        ensures
            match ast@ {
                NodeView::Query(inner) => match unpack_fact_view(*inner) {
                    Some(f) => r is Ok && final(self)@.queries == old(self)@.queries + seq![f]
                        && final(self)@.facts == old(self)@.facts,
                    None => r == Err::<(), StoreError>(StoreError::BadFact) && final(self)@.facts
                        == old(self)@.facts && final(self)@.queries == old(self)@.queries,
                },
                _ => r == Err::<(), StoreError>(StoreError::NotAQuery) && final(self)@.facts
                    == old(self)@.facts && final(self)@.queries == old(self)@.queries,
            },
    {
        match ast {
            Node::Query(x) => {
                match self.unpack_fact(x) {
                    Some(f) => {
                        let ghost fv = f@;
                        self.queries.push(f);
                        proof {
                            assert(self@.queries =~= old(self)@.queries + seq![fv]);
                        }
                        Ok(())
                    },
                    None => Err(StoreError::BadFact),
                }
            },
            _ => {
                proof {
                    lemma_node_view_cases(ast);
                }
                Err(StoreError::NotAQuery)
            },
        }
    }

    /// Answers a query: `None` when the predicate name was never asserted
    /// or nothing stored under it matches; otherwise the first stored fact,
    /// in insertion order, that matches the query.
    pub fn query_fact(&self, query: &Fact) -> (r: Option<&Fact>)
        ensures
            match r {
                Some(f) => self@.facts.contains_key(query@.universe) && first_match(
                    self@.facts[query@.universe],
                    query@,
                ) == Some(f@),
                None => !self@.facts.contains_key(query@.universe) || first_match(
                    self@.facts[query@.universe],
                    query@,
                ) is None,
            },
    {
        let bidx = match find_bucket(&self.facts, &query.universe) {
            Some(i) => i,
            None => {
                proof {
                    lemma_bucket_lookup_none(self.facts@, query@.universe);
                }
                return None;
            },
        };
        proof {
            lemma_bucket_lookup_at(self.facts@, bidx as int);
        }
        let b = &self.facts[bidx];
        let ghost ev = entries_view(self.facts@[bidx as int]);
        proof {
            assert(bucket_lookup(self.facts@, query@.universe) == Some(ev));
        }
        let mut j: usize = 0;
        while j < b.entries.len()
            invariant
                j <= b.entries@.len(),
                ev == entries_view(*b),
                bucket_lookup(self.facts@, query@.universe) == Some(ev),
                self@.facts.contains_key(query@.universe),
                self@.facts[query@.universe] == ev,
                forall|k: int| 0 <= k < j ==> !fact_matches(#[trigger] ev[k], query@),
            decreases b.entries@.len() - j,
        {
            let e = &b.entries[j];
            if e.matches(query) {
                proof {
                    assert(e@ == ev[j as int]);
                    lemma_first_match_at(ev, query@, j as int);
                }
                return Some(e);
            }
            j = j + 1;
        }
        proof {
            lemma_first_match_none(ev, query@);
        }
        None
    }
}

/// The scan that stops at the first matching index returns that entry.
proof fn lemma_first_match_at(s: Seq<FactView>, q: FactView, i: int)
    requires
        0 <= i < s.len(),
        fact_matches(s[i], q),
        forall|k: int| 0 <= k < i ==> !fact_matches(#[trigger] s[k], q),
    ensures
        first_match(s, q) == Some(s[i]),
    decreases i,
{
    if i > 0 {
        assert(s.drop_first()[i - 1] == s[i]);
        assert forall|k: int| 0 <= k < i - 1 implies !fact_matches(
            #[trigger] s.drop_first()[k],
            q,
        ) by {
            assert(s.drop_first()[k] == s[k + 1]);
        }
        lemma_first_match_at(s.drop_first(), q, i - 1);
    }
}

/// A scan that matches nowhere returns nothing.
proof fn lemma_first_match_none(s: Seq<FactView>, q: FactView)
    requires
        forall|k: int| 0 <= k < s.len() ==> !fact_matches(#[trigger] s[k], q),
    ensures
        first_match(s, q) is None,
    decreases s.len(),
{
    if s.len() > 0 {
        assert forall|k: int| 0 <= k < s.drop_first().len() implies !fact_matches(
            #[trigger] s.drop_first()[k],
            q,
        ) by {
            assert(s.drop_first()[k] == s[k + 1]);
        }
        lemma_first_match_none(s.drop_first(), q);
    }
}

/// Matching is symmetric: a variable is a wildcard on either side, and
/// equal text is equal text whichever operand holds it.
pub proof fn lemma_matches_symmetric(a: FactView, b: FactView)
    ensures
        fact_matches(a, b) == fact_matches(b, a),
{
    if fact_matches(a, b) {
        assert forall|i: int| 0 <= i < b.args.len() implies arg_compat(
            #[trigger] b.args[i],
            a.args[i],
        ) by {
            assert(arg_compat(a.args[i], b.args[i]));
        }
    }
    if fact_matches(b, a) {
        assert forall|i: int| 0 <= i < a.args.len() implies arg_compat(
            #[trigger] a.args[i],
            b.args[i],
        ) by {
            assert(arg_compat(b.args[i], a.args[i]));
        }
    }
}

/// Every fact matches itself.
pub proof fn lemma_matches_reflexive(f: FactView)
    ensures
        fact_matches(f, f),
{
    assert forall|i: int| 0 <= i < f.args.len() implies arg_compat(
        #[trigger] f.args[i],
        f.args[i],
    ) by {
        match f.args[i] {
            NameView::Atom(_) => {},
            NameView::Variable(_) => {},
        }
    }
}

/// Right after a fact is appended to its bucket, scanning for that very
/// fact succeeds; and when nothing already in the bucket matches it, the
/// scan returns the fact itself.
pub proof fn lemma_query_after_add(bucket: Seq<FactView>, f: FactView)
    ensures
        first_match(bucket + seq![f], f) is Some,
        (forall|i: int| 0 <= i < bucket.len() ==> !fact_matches(#[trigger] bucket[i], f))
            ==> first_match(bucket + seq![f], f) == Some(f),
    decreases bucket.len(),
{
    lemma_matches_reflexive(f);
    let s = bucket + seq![f];
    if bucket.len() == 0 {
        assert(s.first() == f);
    } else {
        assert(s.first() == bucket.first());
        assert(s.drop_first() =~= bucket.drop_first() + seq![f]);
        lemma_query_after_add(bucket.drop_first(), f);
        if forall|i: int| 0 <= i < bucket.len() ==> !fact_matches(#[trigger] bucket[i], f) {
            assert(!fact_matches(bucket.first(), f));
            assert forall|i: int| 0 <= i < bucket.drop_first().len() implies !fact_matches(
                #[trigger] bucket.drop_first()[i],
                f,
            ) by {
                assert(bucket.drop_first()[i] == bucket[i + 1]);
            }
        }
    }
}

} // verus!
