//! The order in which themes are searched: the theme itself, then its ancestors
//! depth first, each name visited once.
use vstd::prelude::*;

use crate::theme::{inherits_of, IconTheme, ThemeView};

verus! {

/// What is known of installed themes: each installed name with the names it inherits.
pub type ThemeGraph = Map<Seq<char>, Seq<Seq<char>>>;

/// Depth-first traversal with an explicit stack whose top is its last element.
/// A name already seen is dropped; a name not installed is marked seen and
/// skipped; an installed name is emitted and its parents are stacked so that the
/// first declared parent is visited next.
pub open spec fn walk(g: ThemeGraph, stack: Seq<Seq<char>>, seen: Set<Seq<char>>) -> Seq<Seq<char>>
    decreases g.dom().difference(seen).len(), stack.len(),
{
    if !g.dom().finite() || !seen.finite() || stack.len() == 0 {
        Seq::empty()
    } else {
        let top = stack.last();
        let rest = stack.drop_last();
        if seen.contains(top) {
            walk(g, rest, seen)
        } else if g.contains_key(top) {
            proof {
                assert(g.dom().difference(seen.insert(top)) =~= g.dom().difference(seen).remove(top));
            }
            seq![top] + walk(g, rest + g[top].reverse(), seen.insert(top))
        } else {
            proof {
                assert(g.dom().difference(seen.insert(top)) =~= g.dom().difference(seen));
            }
            walk(g, rest, seen.insert(top))
        }
    }
}

/// The search order of themes from `start` over the graph `g`.
pub open spec fn resolution_order(g: ThemeGraph, start: Seq<char>) -> Seq<Seq<char>> {
    walk(g, seq![start], Set::empty())
}

/// `p` is a chain of inheritance: each name but the last is installed and
/// inherits the next.
pub open spec fn is_chain(g: ThemeGraph, p: Seq<Seq<char>>) -> bool {
    &&& p.len() >= 1
    &&& forall|i: int| 0 <= i < p.len() - 1 ==> g.contains_key(#[trigger] p[i]) && g[p[i]].contains(p[i + 1])
}

/// `to` is reached from `from` by following inheritance.
pub open spec fn reachable(g: ThemeGraph, from: Seq<char>, to: Seq<char>) -> bool {
    exists|p: Seq<Seq<char>>| #[trigger] is_chain(g, p) && p[0] == from && p.last() == to
}

/// A chain from some stacked name to `x` that avoids every seen name.
pub open spec fn open_chain(g: ThemeGraph, stack: Seq<Seq<char>>, seen: Set<Seq<char>>, p: Seq<Seq<char>>) -> bool {
    &&& is_chain(g, p)
    &&& stack.contains(p[0])
    &&& forall|i: int| 0 <= i < p.len() ==> !seen.contains(#[trigger] p[i])
}

proof fn lemma_last_index(p: Seq<Seq<char>>, v: Seq<char>) -> (i: int)
    requires
        p.contains(v),
    ensures
        0 <= i < p.len(),
        p[i] == v,
        forall|j: int| i < j < p.len() ==> p[j] != v,
    decreases p.len(),
{
    if p.last() == v {
        p.len() - 1
    } else {
        let k = choose|k: int| 0 <= k < p.len() && p[k] == v;
        assert(p.drop_last()[k] == v);
        let i = lemma_last_index(p.drop_last(), v);
        assert forall|j: int| i < j < p.len() implies p[j] != v by {
            if j < p.len() - 1 {
                assert(p.drop_last()[j] == p[j]);
            }
        }
        i
    }
}

/// What the walk emits is installed, emitted once, and never a seen name.
proof fn lemma_walk_distinct(g: ThemeGraph, stack: Seq<Seq<char>>, seen: Set<Seq<char>>)
    ensures
        walk(g, stack, seen).no_duplicates(),
        forall|x: Seq<char>| #[trigger] walk(g, stack, seen).contains(x) ==> !seen.contains(x) && g.contains_key(x),
    decreases g.dom().difference(seen).len(), stack.len(),
{
    if !g.dom().finite() || !seen.finite() || stack.len() == 0 {
    } else {
        let top = stack.last();
        let rest = stack.drop_last();
        if seen.contains(top) {
            lemma_walk_distinct(g, rest, seen);
        } else if g.contains_key(top) {
            assert(g.dom().difference(seen.insert(top)) =~= g.dom().difference(seen).remove(top));
            let next = rest + g[top].reverse();
            lemma_walk_distinct(g, next, seen.insert(top));
            let w = walk(g, next, seen.insert(top));
            assert(walk(g, stack, seen) == seq![top] + w);
            assert forall|x: Seq<char>| #[trigger] (seq![top] + w).contains(x) implies !seen.contains(x) && g.contains_key(x) by {
                let k = choose|k: int| 0 <= k < (seq![top] + w).len() && (seq![top] + w)[k] == x;
                if k > 0 {
                    assert(w[k - 1] == x);
                    assert(w.contains(x));
                }
            }
            assert forall|i: int, j: int| 0 <= i < (seq![top] + w).len() && 0 <= j < (seq![top] + w).len() && i != j
                implies (seq![top] + w)[i] != (seq![top] + w)[j] by {
                if i == 0 && j > 0 {
                    assert(w.contains(w[j - 1]));
                } else if j == 0 && i > 0 {
                    assert(w.contains(w[i - 1]));
                }
            }
        } else {
            assert(g.dom().difference(seen.insert(top)) =~= g.dom().difference(seen));
            lemma_walk_distinct(g, rest, seen.insert(top));
        }
    }
}

/// What the walk emits is reached by inheritance from a stacked name.
proof fn lemma_walk_reached(g: ThemeGraph, stack: Seq<Seq<char>>, seen: Set<Seq<char>>)
    ensures
        forall|x: Seq<char>| #[trigger] walk(g, stack, seen).contains(x) ==> exists|s: Seq<char>| #[trigger] stack.contains(s) && reachable(g, s, x),
    decreases g.dom().difference(seen).len(), stack.len(),
{
    if !g.dom().finite() || !seen.finite() || stack.len() == 0 {
    } else {
        let top = stack.last();
        let rest = stack.drop_last();
        if seen.contains(top) {
            lemma_walk_reached(g, rest, seen);
            assert forall|x: Seq<char>| #[trigger] walk(g, stack, seen).contains(x) implies exists|s: Seq<char>| #[trigger] stack.contains(s) && reachable(g, s, x) by {
                assert(walk(g, stack, seen) == walk(g, rest, seen));
                assert(walk(g, rest, seen).contains(x));
                let s = choose|s: Seq<char>| #[trigger] rest.contains(s) && reachable(g, s, x);
                let k = choose|k: int| 0 <= k < rest.len() && rest[k] == s;
                assert(stack[k] == s);
                assert(stack.contains(s));
            }
        } else if g.contains_key(top) {
            assert(g.dom().difference(seen.insert(top)) =~= g.dom().difference(seen).remove(top));
            let kids = g[top].reverse();
            let next = rest + kids;
            lemma_walk_reached(g, next, seen.insert(top));
            let w = walk(g, next, seen.insert(top));
            assert(walk(g, stack, seen) == seq![top] + w);
            assert forall|x: Seq<char>| #[trigger] walk(g, stack, seen).contains(x) implies exists|s: Seq<char>| #[trigger] stack.contains(s) && reachable(g, s, x) by {
                let k = choose|k: int| 0 <= k < (seq![top] + w).len() && (seq![top] + w)[k] == x;
                assert(stack[stack.len() - 1] == top);
                if k == 0 {
                    let p = seq![top];
                    assert(is_chain(g, p));
                    assert(stack.contains(top) && reachable(g, top, x));
                } else {
                    assert(w[k - 1] == x);
                    assert(w.contains(x));
                    let s = choose|s: Seq<char>| #[trigger] next.contains(s) && reachable(g, s, x);
                    let j = choose|j: int| 0 <= j < next.len() && next[j] == s;
                    if j < rest.len() {
                        assert(stack[j] == s);
                        assert(stack.contains(s) && reachable(g, s, x));
                    } else {
                        let p = choose|p: Seq<Seq<char>>| #[trigger] is_chain(g, p) && p[0] == s && p.last() == x;
                        let q = seq![top] + p;
                        assert(kids[j - rest.len()] == s);
                        assert(g[top][g[top].len() - 1 - (j - rest.len())] == s);
                        assert(g[top].contains(s));
                        assert forall|i: int| 0 <= i < q.len() - 1 implies g.contains_key(#[trigger] q[i]) && g[q[i]].contains(q[i + 1]) by {
                            if i > 0 {
                                assert(q[i] == p[i - 1]);
                                assert(q[i + 1] == p[i]);
                            }
                        }
                        assert(is_chain(g, q) && q[0] == top && q.last() == x);
                        assert(stack.contains(top) && reachable(g, top, x));
                    }
                }
            }
        } else {
            assert(g.dom().difference(seen.insert(top)) =~= g.dom().difference(seen));
            lemma_walk_reached(g, rest, seen.insert(top));
            assert forall|x: Seq<char>| #[trigger] walk(g, stack, seen).contains(x) implies exists|s: Seq<char>| #[trigger] stack.contains(s) && reachable(g, s, x) by {
                assert(walk(g, stack, seen) == walk(g, rest, seen.insert(top)));
                assert(walk(g, rest, seen.insert(top)).contains(x));
                let s = choose|s: Seq<char>| #[trigger] rest.contains(s) && reachable(g, s, x);
                let k = choose|k: int| 0 <= k < rest.len() && rest[k] == s;
                assert(stack[k] == s);
                assert(stack.contains(s));
            }
        }
    }
}

#[verifier::rlimit(60)]
/// The walk emits every installed name that a chain avoiding the seen names
/// reaches from a stacked name.
proof fn lemma_walk_complete(g: ThemeGraph, stack: Seq<Seq<char>>, seen: Set<Seq<char>>, p: Seq<Seq<char>>)
    requires
        g.dom().finite(),
        seen.finite(),
        open_chain(g, stack, seen, p),
        g.contains_key(p.last()),
    ensures
        walk(g, stack, seen).contains(p.last()),
    decreases g.dom().difference(seen).len(), stack.len(),
{
    let x = p.last();
    let top = stack.last();
    let rest = stack.drop_last();
    let k0 = choose|k: int| 0 <= k < stack.len() && stack[k] == p[0];
    if seen.contains(top) {
        assert(p[0] != top);
        assert(rest[k0] == p[0]);
        lemma_walk_complete(g, rest, seen, p);
    } else if g.contains_key(top) {
        assert(g.dom().difference(seen.insert(top)) =~= g.dom().difference(seen).remove(top));
        let kids = g[top].reverse();
        let next = rest + kids;
        let w = walk(g, next, seen.insert(top));
        assert(walk(g, stack, seen) == seq![top] + w);
        if x == top {
            assert((seq![top] + w)[0] == top);
        } else {
            if p.contains(top) {
                let i = lemma_last_index(p, top);
                assert(i < p.len() - 1);
                let q = p.subrange(i + 1, p.len() as int);
                assert(g[p[i]].contains(p[i + 1]));
                let c = p[i + 1];
                let ci = choose|ci: int| 0 <= ci < g[top].len() && g[top][ci] == c;
                assert(kids[g[top].len() - 1 - ci] == c);
                assert(next[rest.len() + g[top].len() - 1 - ci] == c);
                assert forall|j: int| 0 <= j < q.len() - 1 implies g.contains_key(#[trigger] q[j]) && g[q[j]].contains(q[j + 1]) by {
                    assert(q[j] == p[i + 1 + j]);
                    assert(q[j + 1] == p[i + 2 + j]);
                }
                assert forall|j: int| 0 <= j < q.len() implies !seen.insert(top).contains(#[trigger] q[j]) by {
                    assert(q[j] == p[i + 1 + j]);
                }
                assert(q.last() == x);
                assert(open_chain(g, next, seen.insert(top), q));
                lemma_walk_complete(g, next, seen.insert(top), q);
            } else {
                assert(p[0] != top);
                assert(next[k0] == p[0]);
                assert forall|j: int| 0 <= j < p.len() implies !seen.insert(top).contains(#[trigger] p[j]) by {
                    assert(p[j] != top);
                }
                lemma_walk_complete(g, next, seen.insert(top), p);
            }
            assert((seq![top] + w).contains(x)) by {
                let k = choose|k: int| 0 <= k < w.len() && w[k] == x;
                assert((seq![top] + w)[k + 1] == x);
            }
        }
    } else {
        assert(g.dom().difference(seen.insert(top)) =~= g.dom().difference(seen));
        assert(!p.contains(top)) by {
            if p.contains(top) {
                let k = choose|k: int| 0 <= k < p.len() && p[k] == top;
                if k < p.len() - 1 {
                    assert(g.contains_key(p[k]));
                }
            }
        }
        assert(p[0] != top);
        assert(rest[k0] == p[0]);
        assert forall|j: int| 0 <= j < p.len() implies !seen.insert(top).contains(#[trigger] p[j]) by {
            assert(p[j] != top);
        }
        lemma_walk_complete(g, rest, seen.insert(top), p);
    }
}

/// The search order from `start` holds each theme name that inheritance reaches
/// from `start` through installed themes, and that is installed itself, exactly
/// once, and nothing else; an installed `start` comes first. This holds whatever
/// cycles, self-references or shared ancestors the descriptors declare.
pub proof fn lemma_resolution_order(g: ThemeGraph, start: Seq<char>)
    requires
        g.dom().finite(),
    ensures
        resolution_order(g, start).no_duplicates(),
        g.contains_key(start) ==> resolution_order(g, start).len() > 0 && resolution_order(g, start)[0] == start,
        forall|n: Seq<char>| #[trigger] resolution_order(g, start).contains(n) <==> g.contains_key(n) && reachable(g, start, n),
{
    let stack = seq![start];
    let seen = Set::<Seq<char>>::empty();
    lemma_walk_distinct(g, stack, seen);
    lemma_walk_reached(g, stack, seen);
    assert(stack.drop_last() =~= Seq::<Seq<char>>::empty());
    assert(stack.last() == start);
    assert forall|n: Seq<char>| #[trigger] resolution_order(g, start).contains(n) <==> g.contains_key(n) && reachable(g, start, n) by {
        if resolution_order(g, start).contains(n) {
            let s = choose|s: Seq<char>| #[trigger] stack.contains(s) && reachable(g, s, n);
            let k = choose|k: int| 0 <= k < stack.len() && stack[k] == s;
            assert(s == start);
        }
        if g.contains_key(n) && reachable(g, start, n) {
            let p = choose|p: Seq<Seq<char>>| #[trigger] is_chain(g, p) && p[0] == start && p.last() == n;
            assert(stack[0] == start);
            assert(open_chain(g, stack, seen, p));
            lemma_walk_complete(g, stack, seen, p);
        }
    }
}

/// `g` agrees with what the walk has learned about every name it has seen.
pub open spec fn agrees(g: ThemeGraph, known: ThemeGraph, seen: Set<Seq<char>>) -> bool {
    forall|n: Seq<char>| #[trigger] seen.contains(n) ==> (g.contains_key(n) == known.contains_key(n)
        && (known.contains_key(n) ==> g[n] == known[n]))
}

/// The inheritance walk of one lookup. The caller loads each theme that
/// `next_theme` names and hands it (or its absence) to `supply`.
pub struct ThemeResolution {
    stack: Vec<String>,
    seen: Vec<String>,
    order: Vec<IconTheme>,
    start: Ghost<Seq<char>>,
    loaded: Ghost<Map<Seq<char>, ThemeView>>,
    names: Ghost<Seq<Seq<char>>>,
}

/// `n` is the start or a name that some loaded theme inherits from: the only
/// names a walk ever asks for.
pub open spec fn mentioned(start: Seq<char>, loaded: Map<Seq<char>, ThemeView>, n: Seq<char>) -> bool {
    n == start || exists|k: Seq<char>| #[trigger] loaded.contains_key(k) && inherits_of(loaded[k]).contains(n)
}

proof fn lemma_mentioned_grows(
    start: Seq<char>,
    loaded: Map<Seq<char>, ThemeView>,
    n: Seq<char>,
    tv: ThemeView,
    m: Seq<char>,
)
    requires
        !loaded.contains_key(n),
        mentioned(start, loaded, m),
    ensures
        mentioned(start, loaded.insert(n, tv), m),
{
    if m != start {
        let k = choose|k: Seq<char>| #[trigger] loaded.contains_key(k) && inherits_of(loaded[k]).contains(m);
        assert(loaded.insert(n, tv).contains_key(k));
        assert(loaded.insert(n, tv)[k] == loaded[k]);
    }
}

pub open spec fn graph_of(loaded: Map<Seq<char>, ThemeView>) -> ThemeGraph {
    loaded.map_values(|t: ThemeView| inherits_of(t))
}

fn contains_name(v: &Vec<String>, n: &String) -> (r: bool)
    ensures
        r == v@.map_values(|s: String| s@).contains(n@),
{
    let mut i: usize = 0;
    while i < v.len()
        invariant
            i <= v.len(),
            forall|j: int| 0 <= j < i ==> v@[j]@ != n@,
        decreases v.len() - i,
    {
        if v[i] == *n {
            proof {
                assert(v@.map_values(|s: String| s@)[i as int] == n@);
            }
            return true;
        }
        i = i + 1;
    }
    proof {
        let vs = v@.map_values(|s: String| s@);
        if vs.contains(n@) {
            let k = choose|k: int| 0 <= k < vs.len() && vs[k] == n@;
            assert(v@[k]@ == n@);
        }
    }
    false
}

/// Stacks `parents` so that the first of them is on top.
fn push_parents(stack: &mut Vec<String>, parents: &Vec<String>)
    ensures
        final(stack)@.map_values(|s: String| s@) == old(stack)@.map_values(|s: String| s@)
            + parents@.map_values(|s: String| s@).reverse(),
{
    let ghost pv = parents@.map_values(|s: String| s@);
    let ghost base = stack@.map_values(|s: String| s@);
    let mut i: usize = parents.len();
    proof {
        assert(pv.subrange(i as int, pv.len() as int).reverse() =~= Seq::<Seq<char>>::empty());
        assert(base + Seq::<Seq<char>>::empty() =~= base);
    }
    while i > 0
        invariant
            i <= parents.len(),
            pv == parents@.map_values(|s: String| s@),
            stack@.map_values(|s: String| s@) == base + pv.subrange(i as int, pv.len() as int).reverse(),
        decreases i,
    {
        i = i - 1;
        let ghost before = stack@.map_values(|s: String| s@);
        stack.push(parents[i].clone());
        proof {
            assert(stack@.map_values(|s: String| s@) =~= before.push(pv[i as int]));
            assert(pv.subrange(i as int, pv.len() as int).reverse() =~= pv.subrange(i + 1, pv.len() as int).reverse().push(pv[i as int]));
            assert(base + pv.subrange(i as int, pv.len() as int).reverse() =~= (base + pv.subrange(i + 1, pv.len() as int).reverse()).push(pv[i as int]));
        }
    }
    proof {
        assert(pv.subrange(0, pv.len() as int) =~= pv);
    }
}

impl ThemeResolution {
    pub closed spec fn start_name(&self) -> Seq<char> {
        self.start@
    }

    /// The themes handed in so far, by the name they were asked for under.
    pub closed spec fn loaded(&self) -> Map<Seq<char>, ThemeView> {
        self.loaded@
    }

    pub closed spec fn seen_set(&self) -> Set<Seq<char>> {
        self.seen@.map_values(|s: String| s@).to_set()
    }

    pub closed spec fn stack_view(&self) -> Seq<Seq<char>> {
        self.stack@.map_values(|s: String| s@)
    }

    /// The names of the themes in `order`, in order.
    pub closed spec fn order_names(&self) -> Seq<Seq<char>> {
        self.names@
    }

    pub closed spec fn order_view(&self) -> Seq<ThemeView> {
        self.order@.map_values(|t: IconTheme| t@)
    }

    /// Whether no theme is left to load.
    pub closed spec fn done(&self) -> bool {
        self.stack@.len() == 0
    }

    /// The names asked for so far, the start included.
    pub closed spec fn asked(&self) -> Set<Seq<char>> {
        self.seen_set()
    }

    pub closed spec fn wf(&self) -> bool {
        &&& self.loaded@.dom().subset_of(self.seen_set())
        &&& forall|n: Seq<char>| #[trigger] self.seen_set().contains(n) ==> mentioned(self.start@, self.loaded@, n)
        &&& forall|i: int| 0 <= i < self.stack@.len() ==> mentioned(self.start@, self.loaded@, #[trigger] self.stack@[i]@)
        &&& self.order@.len() == self.names@.len()
        &&& forall|i: int| 0 <= i < self.names@.len() ==> self.loaded@.contains_key(#[trigger] self.names@[i])
            && self.order@[i]@ == self.loaded@[self.names@[i]]
        &&& forall|g: ThemeGraph| #![trigger agrees(g, graph_of(self.loaded@), self.seen_set())]
            g.dom().finite() && agrees(g, graph_of(self.loaded@), self.seen_set())
                ==> resolution_order(g, self.start@) == self.names@ + walk(g, self.stack_view(), self.seen_set())
    }

    /// Starts the walk at an already loaded theme.
    pub fn new(start: IconTheme) -> (r: ThemeResolution)
        ensures
            r.wf(),
            r.start_name() == start@.name,
            r.loaded() == Map::<Seq<char>, ThemeView>::empty().insert(start@.name, start@),
            r.asked() == Set::<Seq<char>>::empty().insert(start@.name),
            r.order_view() == seq![start@],
    {
        let parents = start.inherits();
        let mut stack: Vec<String> = Vec::new();
        push_parents(&mut stack, &parents);
        proof {
            assert(stack@.map_values(|x: String| x@) =~= parents@.map_values(|x: String| x@).reverse());
        }
        let name = String::from_str(start.name());
        let mut seen: Vec<String> = Vec::new();
        seen.push(name);
        let ghost s = start@;
        let mut order: Vec<IconTheme> = Vec::new();
        order.push(start);
        let r = ThemeResolution {
            stack,
            seen,
            order,
            start: Ghost(s.name),
            loaded: Ghost(Map::empty().insert(s.name, s)),
            names: Ghost(Seq::empty().push(s.name)),
        };
        proof {
            assert(r.seen_set() =~= set![s.name]) by {
                assert(r.seen@.map_values(|x: String| x@) =~= seq![s.name]);
                let one = seq![s.name];
                assert(one[0] == s.name);
                assert forall|x: Seq<char>| one.to_set().contains(x) <==> set![s.name].contains(x) by {
                    if one.contains(x) {
                        let k = choose|k: int| 0 <= k < one.len() && one[k] == x;
                        assert(k == 0);
                    }
                }
                assert(one.to_set() =~= set![s.name]);
            }
            assert forall|g: ThemeGraph| #![trigger agrees(g, graph_of(r.loaded@), r.seen_set())]
                g.dom().finite() && agrees(g, graph_of(r.loaded@), r.seen_set())
                implies resolution_order(g, r.start@) == r.names@ + walk(g, r.stack_view(), r.seen_set()) by {
                assert(set![s.name].contains(s.name));
                assert(graph_of(r.loaded@).contains_key(s.name));
                assert(g[s.name] == inherits_of(s));
                assert(Set::<Seq<char>>::empty().insert(s.name) =~= set![s.name]);
                assert(seq![s.name].drop_last() + g[s.name].reverse() =~= r.stack_view());
                assert(Seq::<Seq<char>>::empty().push(s.name) =~= seq![s.name]);
            }
            assert(Set::<Seq<char>>::empty().insert(s.name) =~= set![s.name]);
            assert(r.order_view() =~= seq![s]);
            assert(r.loaded@.contains_key(s.name));
            assert forall|i: int| 0 <= i < r.stack@.len() implies mentioned(r.start@, r.loaded@, #[trigger] r.stack@[i]@) by {
                let pv = parents@.map_values(|x: String| x@);
                assert(r.stack_view()[i] == r.stack@[i]@);
                assert(r.stack_view()[i] == pv[pv.len() - 1 - i]);
                assert(pv.contains(r.stack@[i]@));
                assert(inherits_of(r.loaded@[s.name]).contains(r.stack@[i]@));
            }
        }
        r
    }

    /// The name the walk is waiting for: the top of the stack, not yet seen.
    pub closed spec fn waiting_for(&self, n: Seq<char>) -> bool {
        &&& self.stack@.len() > 0
        &&& self.stack@.last()@ == n
        &&& !self.seen_set().contains(n)
    }

    /// Drops stacked names that were already visited.
    fn skip_seen(&mut self)
        requires
            old(self).wf(),
        ensures
            final(self).wf(),
            final(self).start_name() == old(self).start_name(),
            final(self).loaded() == old(self).loaded(),
            final(self).order_names() == old(self).order_names(),
            final(self).order_view() == old(self).order_view(),
            final(self).seen_set() == old(self).seen_set(),
            final(self).done() || final(self).waiting_for(final(self).stack@.last()@),
            old(self).stack@.len() > 0 && !old(self).seen_set().contains(old(self).stack@.last()@)
                ==> final(self).stack@ == old(self).stack@,
    {
        loop
            invariant
                self.wf(),
                old(self).stack@.len() > 0 && !old(self).seen_set().contains(old(self).stack@.last()@)
                    ==> self.stack@ == old(self).stack@,
                self.start@ == old(self).start@,
                self.loaded@ == old(self).loaded@,
                self.names@ == old(self).names@,
                self.order@ == old(self).order@,
                self.seen@ == old(self).seen@,
            decreases self.stack@.len(),
        {
            if self.stack.len() == 0 {
                return;
            }
            let top = self.stack.len() - 1;
            if !contains_name(&self.seen, &self.stack[top]) {
                return;
            }
            let ghost prior_stack = self.stack_view();
            let ghost seen = self.seen_set();
            let ghost loaded = self.loaded@;
            let ghost names = self.names@;
            proof {
                assert(seen.contains(prior_stack.last()));
            }
            self.stack.pop();
            proof {
                assert(self.stack_view() =~= prior_stack.drop_last());
                assert forall|g: ThemeGraph| #![trigger agrees(g, graph_of(loaded), seen)]
                    g.dom().finite() && agrees(g, graph_of(loaded), seen)
                    implies resolution_order(g, self.start@) == names + walk(g, self.stack_view(), seen) by {
                    assert(walk(g, prior_stack, seen) == walk(g, prior_stack.drop_last(), seen));
                }
            }
        }
    }

    /// The next theme to load, or `None` when the walk is complete.
    pub fn next_theme(&mut self) -> (r: Option<String>)
        requires
            old(self).wf(),
        ensures
            final(self).wf(),
            final(self).start_name() == old(self).start_name(),
            final(self).loaded() == old(self).loaded(),
            final(self).order_view() == old(self).order_view(),
            final(self).asked() == old(self).asked(),
            r is None <==> final(self).done(),
            r matches Some(n) ==> final(self).waiting_for(n@) && !final(self).asked().contains(n@),
    {
        self.skip_seen();
        if self.stack.len() == 0 {
            None
        } else {
            Some(self.stack[self.stack.len() - 1].clone())
        }
    }

    /// Hands in the theme that `next_theme` named, or `None` where no such theme
    /// is installed. An installed theme joins the order and its parents are
    /// visited next.
    #[verifier::rlimit(80)]
    pub fn supply(&mut self, theme: Option<IconTheme>)
        requires
            old(self).wf(),
        ensures
            final(self).wf(),
            final(self).start_name() == old(self).start_name(),
            old(self).asked().subset_of(final(self).asked()),
            forall|n: Seq<char>| #[trigger] old(self).waiting_for(n) ==> !old(self).asked().contains(n)
                && final(self).asked() == old(self).asked().insert(n),
            forall|n: Seq<char>| old(self).waiting_for(n) ==> match theme {
                Some(t) => final(self).loaded() == old(self).loaded().insert(n, t@)
                    && final(self).order_view() == old(self).order_view().push(t@),
                None => final(self).loaded() == old(self).loaded()
                    && final(self).order_view() == old(self).order_view(),
            },
    {
        self.skip_seen();
        if self.stack.len() == 0 {
            return;
        }
        let ghost prior_stack = self.stack_view();
        let ghost seen = self.seen_set();
        let ghost loaded = self.loaded@;
        let ghost names = self.names@;
        let ghost order = self.order_view();
        let ghost seen_seq = self.seen@.map_values(|x: String| x@);
        let name = self.stack.pop().unwrap();
        let ghost n = name@;
        proof {
            assert(prior_stack.last() == n);
            assert(self.stack_view() =~= prior_stack.drop_last());
            assert(!seen.contains(n));
            seen_seq.lemma_push_to_set_commute(n);
        }
        self.seen.push(name);
        proof {
            assert(self.seen@.map_values(|x: String| x@) =~= seen_seq.push(n));
            assert(self.seen_set() =~= seen.insert(n));
        }
        match theme {
            Some(t) => {
                let parents = t.inherits();
                let ghost tv = t@;
                push_parents(&mut self.stack, &parents);
                self.order.push(t);
                proof {
                    self.loaded@ = loaded.insert(n, tv);
                    self.names@ = names.push(n);
                    assert(self.order_view() =~= order.push(tv));
                    assert(graph_of(self.loaded@) =~= graph_of(loaded).insert(n, inherits_of(tv)));
                    assert(!loaded.contains_key(n));
                    assert(self.stack_view() == prior_stack.drop_last() + parents@.map_values(|x: String| x@).reverse());
                    assert forall|m: Seq<char>| #[trigger] self.seen_set().contains(m) implies mentioned(self.start@, self.loaded@, m) by {
                        if m == n {
                            assert(prior_stack[prior_stack.len() - 1] == n);
                            assert(mentioned(self.start@, loaded, n));
                        } else {
                            assert(seen.contains(m));
                        }
                        lemma_mentioned_grows(self.start@, loaded, n, tv, m);
                    }
                    assert forall|i: int| 0 <= i < self.stack@.len() implies mentioned(self.start@, self.loaded@, #[trigger] self.stack@[i]@) by {
                        let sv = self.stack_view();
                        assert(sv[i] == self.stack@[i]@);
                        let pv = parents@.map_values(|x: String| x@);
                        if i < prior_stack.len() - 1 {
                            assert(sv[i] == prior_stack[i]);
                            assert(mentioned(self.start@, loaded, prior_stack[i]));
                            lemma_mentioned_grows(self.start@, loaded, n, tv, sv[i]);
                        } else {
                            let j = i - (prior_stack.len() - 1);
                            assert(sv[i] == pv.reverse()[j]);
                            assert(pv.contains(sv[i]));
                            assert(self.loaded@.contains_key(n));
                            assert(inherits_of(self.loaded@[n]).contains(sv[i]));
                        }
                    }
                    assert forall|i: int| 0 <= i < self.names@.len() implies self.loaded@.contains_key(#[trigger] self.names@[i])
                        && self.order@[i]@ == self.loaded@[self.names@[i]] by {
                        if i < names.len() {
                            assert(self.names@[i] == names[i]);
                            assert(names[i] != n);
                        }
                    }
                    assert forall|g: ThemeGraph| #![trigger agrees(g, graph_of(self.loaded@), self.seen_set())]
                        g.dom().finite() && agrees(g, graph_of(self.loaded@), self.seen_set())
                        implies resolution_order(g, self.start@) == self.names@ + walk(g, self.stack_view(), self.seen_set()) by {
                        assert(self.seen_set().contains(n));
                        assert forall|m: Seq<char>| #[trigger] seen.contains(m) implies (g.contains_key(m)
                            == graph_of(loaded).contains_key(m) && (graph_of(loaded).contains_key(m)
                            ==> g[m] == graph_of(loaded)[m])) by {
                            assert(self.seen_set().contains(m));
                            assert(m != n);
                        }
                        assert(agrees(g, graph_of(loaded), seen));
                        assert(g.contains_key(n) && g[n] == inherits_of(tv));
                        assert(self.stack_view() == prior_stack.drop_last() + g[n].reverse());
                        assert(walk(g, prior_stack, seen) == seq![n] + walk(g, self.stack_view(), self.seen_set()));
                        assert(names + (seq![n] + walk(g, self.stack_view(), self.seen_set())) =~= self.names@ + walk(g, self.stack_view(), self.seen_set()));
                    }
                }
            },
            None => {
                proof {
                    assert forall|g: ThemeGraph| #![trigger agrees(g, graph_of(self.loaded@), self.seen_set())]
                        g.dom().finite() && agrees(g, graph_of(self.loaded@), self.seen_set())
                        implies resolution_order(g, self.start@) == self.names@ + walk(g, self.stack_view(), self.seen_set()) by {
                        assert(self.seen_set().contains(n));
                        assert forall|m: Seq<char>| #[trigger] seen.contains(m) implies (g.contains_key(m)
                            == graph_of(loaded).contains_key(m) && (graph_of(loaded).contains_key(m)
                            ==> g[m] == graph_of(loaded)[m])) by {
                            assert(self.seen_set().contains(m));
                            assert(m != n);
                        }
                        assert(agrees(g, graph_of(loaded), seen));
                        assert(!g.contains_key(n));
                        assert(walk(g, prior_stack, seen) == walk(g, self.stack_view(), self.seen_set()));
                    }
                }
            },
        }
    }

    /// Every name asked for is the start or a name that a loaded theme inherits from.
    pub proof fn lemma_asked_mentioned(&self)
        requires
            self.wf(),
        ensures
            self.loaded().dom().subset_of(self.asked()),
            forall|n: Seq<char>| #[trigger] self.asked().contains(n) ==> mentioned(self.start_name(), self.loaded(), n),
    {
    }

    /// The themes of the completed walk, in search order.
    pub fn into_order(self) -> (r: Vec<IconTheme>)
        requires
            self.wf(),
            self.done(),
        ensures
            r@.map_values(|t: IconTheme| t@) == resolution_order(graph_of(self.loaded()), self.start_name())
                .map_values(|n: Seq<char>| self.loaded()[n]),
            forall|g: ThemeGraph| #![trigger agrees(g, graph_of(self.loaded()), self.asked())]
                g.dom().finite() && agrees(g, graph_of(self.loaded()), self.asked())
                    ==> resolution_order(g, self.start_name()) == resolution_order(graph_of(self.loaded()), self.start_name()),
    {
        proof {
            let g = graph_of(self.loaded@);
            vstd::set_lib::lemma_len_subset(self.loaded@.dom(), self.seen_set());
            assert(g.dom() =~= self.loaded@.dom());
            assert(agrees(g, graph_of(self.loaded@), self.seen_set()));
            assert(self.stack_view() =~= Seq::<Seq<char>>::empty());
            assert(self.names@ + Seq::<Seq<char>>::empty() =~= self.names@);
            assert(self.order@.map_values(|t: IconTheme| t@) =~= self.names@.map_values(|n: Seq<char>| self.loaded@[n]));
        }
        self.order
    }
}

} // verus!
