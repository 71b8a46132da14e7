//! Walking a tree depth first, with a callback that decides at each node.
use crate::dom::element::Element;
use crate::dom::html::Text;
use crate::dom::node::{Node, descendants, forest};
use std::ops::ControlFlow;
use vstd::prelude::*;

verus! {

/// What the callback decides at a node.
pub enum WalkResult<T> {
    /// Continue walking.
    Continue,
    /// Skip the children of this element.
    ///
    /// Is identical to `Continue` for text and comments.
    Skip,
    /// Break walking.
    Break(T),
}

/// The answer the walk takes from the callback at each node it visits.
pub type Answer<T, E> = Result<WalkResult<T>, E>;

/// Walks the list `s` given the answers `ans`, in order of visit: the outcome and the nodes
/// visited, each of which took the next answer.
pub open spec fn walk<'a, T, E>(s: Seq<Node<'a>>, ans: Seq<Answer<T, E>>) -> (Result<ControlFlow<T, ()>, E>, Seq<Node<'a>>)
    decreases s,
{
    if s.len() == 0 {
        (Ok(ControlFlow::Continue(())), Seq::empty())
    } else {
        let (r0, v0) = walk(s.subrange(0, s.len() - 1), ans);
        if r0 matches Ok(ControlFlow::Continue(())) {
            let (r1, v1) = visit(s[s.len() - 1], ans.skip(v0.len() as int));
            (r1, v0 + v1)
        } else {
            (r0, v0)
        }
    }
}

/// Visits the node `n` given the answers `ans`: the first is for `n` itself; on `Continue`
/// the children of an element are walked with the answers that follow.
pub open spec fn visit<'a, T, E>(n: Node<'a>, ans: Seq<Answer<T, E>>) -> (Result<ControlFlow<T, ()>, E>, Seq<Node<'a>>)
    decreases n,
{
    match ans[0] {
        Err(e) => (Err(e), seq![n]),
        Ok(WalkResult::Break(t)) => (Ok(ControlFlow::Break(t)), seq![n]),
        Ok(WalkResult::Skip) => (Ok(ControlFlow::Continue(())), seq![n]),
        Ok(WalkResult::Continue) => match n {
            Node::Element(e) => {
                let (r, v) = walk(e.children@, ans.skip(1));
                (r, seq![n] + v)
            },
            _ => (Ok(ControlFlow::Continue(())), seq![n]),
        },
    }
}

/// `a` is what the callback `f` can answer at `n`: the conversion of a value it returns.
pub open spec fn answered<'a, F, U, T, E>(f: F, n: Node<'a>, a: Answer<T, E>) -> bool
    where
        F: Fn(&Node<'a>) -> U,
        Answer<T, E>: From<U>,
{
    exists|u: U| f.ensures((&n,), u) && call_ensures(Answer::<T, E>::from, (u,), a)
}

/// Walking `s` with the answers `ans` gives `r`, takes every answer, and each is one the
/// callback can give at the node that took it.
pub open spec fn walked<'a, F, U, T, E>(s: Seq<Node<'a>>, ans: Seq<Answer<T, E>>, r: Result<ControlFlow<T, ()>, E>, f: F) -> bool
    where
        F: Fn(&Node<'a>) -> U,
        Answer<T, E>: From<U>,
{
    &&& walk(s, ans).0 == r
    &&& walk(s, ans).1.len() == ans.len()
    &&& forall|k: int| 0 <= k < ans.len() ==> answered(f, #[trigger] walk(s, ans).1[k], ans[k])
}

/// The walk reads no answer past those it takes.
pub proof fn lemma_walk_prefix<'a, T, E>(s: Seq<Node<'a>>, a1: Seq<Answer<T, E>>, a2: Seq<Answer<T, E>>)
    requires
        walk(s, a1).1.len() <= a1.len(),
        walk(s, a1).1.len() <= a2.len(),
        forall|i: int| 0 <= i < walk(s, a1).1.len() ==> a1[i] == a2[i],
    ensures
        walk(s, a2) == walk(s, a1),
    decreases s,
{
    if s.len() > 0 {
        let pre = s.subrange(0, s.len() - 1);
        let (r0, v0) = walk(pre, a1);
        lemma_walk_prefix(pre, a1, a2);
        if r0 matches Ok(ControlFlow::Continue(())) {
            let k = v0.len() as int;
            let b1 = a1.skip(k);
            let b2 = a2.skip(k);
            assert forall|i: int| 0 <= i < visit(s[s.len() - 1], b1).1.len() implies b1[i] == b2[i] by {
                assert(b1[i] == a1[i + k]);
                assert(b2[i] == a2[i + k]);
            }
            lemma_visit_prefix(s[s.len() - 1], b1, b2);
        }
    }
}

pub proof fn lemma_visit_prefix<'a, T, E>(n: Node<'a>, a1: Seq<Answer<T, E>>, a2: Seq<Answer<T, E>>)
    requires
        visit(n, a1).1.len() <= a1.len(),
        visit(n, a1).1.len() <= a2.len(),
        forall|i: int| 0 <= i < visit(n, a1).1.len() ==> a1[i] == a2[i],
    ensures
        visit(n, a2) == visit(n, a1),
    decreases n,
{
    assert(a1[0] == a2[0]);
    if let Ok(WalkResult::Continue) = a1[0] {
        if let Node::Element(e) = n {
            let b1 = a1.skip(1);
            let b2 = a2.skip(1);
            assert forall|i: int| 0 <= i < walk(e.children@, b1).1.len() implies b1[i] == b2[i] by {
                assert(b1[i] == a1[i + 1]);
                assert(b2[i] == a2[i + 1]);
            }
            lemma_walk_prefix(e.children@, b1, b2);
        }
    }
}

/// Once the walk of a prefix has stopped, the nodes after it are not visited.
pub proof fn lemma_walk_stops<'a, T, E>(s: Seq<Node<'a>>, ans: Seq<Answer<T, E>>, i: int)
    requires
        0 <= i <= s.len(),
        !(walk(s.subrange(0, i), ans).0 matches Ok(ControlFlow::Continue(()))),
    ensures
        walk(s, ans) == walk(s.subrange(0, i), ans),
    decreases s.len() - i,
{
    if i < s.len() {
        let q = s.subrange(0, i + 1);
        assert(q.subrange(0, q.len() - 1) =~= s.subrange(0, i));
        lemma_walk_stops(s, ans, i + 1);
    } else {
        assert(s.subrange(0, i) =~= s);
    }
}

/// Walks `tree` depth first, asking `f` at each node: `Continue` goes into an element's
/// children, `Skip` passes over them, `Break` and errors end the walk.
fn inner_for_each<'a, F, E, T, U>(tree: &[Node<'a>], f: &F) -> (r: Result<ControlFlow<T, ()>, E>)
    where
        F: Fn(&Node<'a>) -> U,
        Answer<T, E>: From<U>,
    requires
        forall|m: &Node<'a>| f.requires((m,)),
    ensures
        exists|ans: Seq<Answer<T, E>>| walked(tree@, ans, r, *f),
    decreases tree@,
{
    let ghost mut acc: Seq<Answer<T, E>> = Seq::empty();
    let ghost mut vis: Seq<Node<'a>> = Seq::empty();
    let n = tree.len();
    let mut i: usize = 0;
    assert(tree@.subrange(0, 0) =~= Seq::<Node<'a>>::empty());
    while i < n
        invariant
            n == tree@.len(),
            i <= n,
            forall|m: &Node<'a>| f.requires((m,)),
            walk(tree@.subrange(0, i as int), acc) == (Ok::<ControlFlow<T, ()>, E>(ControlFlow::Continue(())), vis),
            vis.len() == acc.len(),
            forall|k: int| 0 <= k < acc.len() ==> answered(*f, #[trigger] vis[k], acc[k]),
        decreases n - i,
    {
        let node = &tree[i];
        let a = call_it(f, node);
        let ghost ga = a;
        let ghost pre = tree@.subrange(0, i as int);
        let ghost nxt = tree@.subrange(0, i + 1);
        proof {
            assert(nxt.subrange(0, nxt.len() - 1) =~= pre);
            assert(nxt[nxt.len() - 1] == *node);
            assert(answered(*f, *node, ga));
        }
        match a {
            Err(e) => {
                proof {
                    let acc2 = acc.push(ga);
                    lemma_walk_prefix(pre, acc, acc2);
                    assert(acc2.skip(acc.len() as int) =~= seq![ga]);
                    assert(ga == Err::<WalkResult<T>, E>(e));
                    assert(seq![ga][0] == ga);
                    assert(visit(*node, seq![ga]).0 == Err::<ControlFlow<T, ()>, E>(e));
                    assert(walk(nxt, acc2).0 == Err::<ControlFlow<T, ()>, E>(e));
                    lemma_walk_stops(tree@, acc2, i + 1);
                    assert(walk(tree@, acc2).1 =~= vis.push(*node));
                    assert(walked(tree@, acc2, Err::<ControlFlow<T, ()>, E>(e), *f));
                }
                return Err(e);
            },
            Ok(WalkResult::Break(t)) => {
                proof {
                    let acc2 = acc.push(ga);
                    lemma_walk_prefix(pre, acc, acc2);
                    assert(acc2.skip(acc.len() as int) =~= seq![ga]);
                    lemma_walk_stops(tree@, acc2, i + 1);
                    assert(walk(tree@, acc2).1 =~= vis.push(*node));
                    assert(walked(tree@, acc2, Ok::<ControlFlow<T, ()>, E>(ControlFlow::Break(t)), *f));
                }
                return Ok(ControlFlow::Break(t));
            },
            Ok(WalkResult::Skip) => {
                proof {
                    let acc2 = acc.push(ga);
                    lemma_walk_prefix(pre, acc, acc2);
                    assert(acc2.skip(acc.len() as int) =~= seq![ga]);
                    assert(walk(nxt, acc2).1 =~= vis.push(*node));
                    assert(walk(nxt, acc2).0 == Ok::<ControlFlow<T, ()>, E>(ControlFlow::Continue(())));
                    acc = acc2;
                    vis = vis.push(*node);
                }
            },
            Ok(WalkResult::Continue) => {
                if let Node::Element(e) = node {
                    proof {
                        assert(decreases_to!(tree@ => e.children@));
                    }
                    let sub = inner_for_each(e.children.as_slice(), f);
                    let ghost sa = choose|x: Seq<Answer<T, E>>| walked(e.children@, x, sub, *f);
                    let ghost acc2 = acc + seq![ga] + sa;
                    let ghost vsub = walk(e.children@, sa).1;
                    proof {
                        lemma_walk_prefix(pre, acc, acc2);
                        assert(acc2.skip(acc.len() as int) =~= seq![ga] + sa);
                        assert((seq![ga] + sa).skip(1) =~= sa);
                        assert((seq![ga] + sa)[0] == ga);
                        assert(*node == Node::Element(*e));
                        assert(visit(*node, seq![ga] + sa) == (walk(e.children@, sa).0, seq![*node] + vsub));
                        assert(walk(nxt, acc2) == (walk(e.children@, sa).0, vis + (seq![*node] + vsub)));
                        assert(vis + (seq![*node] + vsub) =~= vis + seq![*node] + vsub);
                        assert(walk(nxt, acc2).1 =~= vis + seq![*node] + vsub);
                        assert forall|k: int| 0 <= k < acc2.len() implies answered(*f, #[trigger] (vis + seq![*node] + vsub)[k], acc2[k]) by {
                            if k < acc.len() {
                                assert((vis + seq![*node] + vsub)[k] == vis[k]);
                            } else if k == acc.len() {
                            } else {
                                assert((vis + seq![*node] + vsub)[k] == vsub[k - acc.len() - 1]);
                                assert(acc2[k] == sa[k - acc.len() - 1]);
                            }
                        }
                    }
                    match sub {
                        Ok(ControlFlow::Continue(u)) => {
                            proof {
                                assert(u == ());
                                assert(walk(nxt, acc2).0 == Ok::<ControlFlow<T, ()>, E>(ControlFlow::Continue(())));
                                acc = acc2;
                                vis = vis + seq![*node] + vsub;
                            }
                        },
                        other => {
                            proof {
                                lemma_walk_stops(tree@, acc2, i + 1);
                                assert(walked(tree@, acc2, other, *f));
                            }
                            return other;
                        },
                    }
                } else {
                    proof {
                        let acc2 = acc.push(ga);
                        lemma_walk_prefix(pre, acc, acc2);
                        assert(acc2.skip(acc.len() as int) =~= seq![ga]);
                        assert(walk(nxt, acc2).1 =~= vis.push(*node));
                        assert(walk(nxt, acc2).0 == Ok::<ControlFlow<T, ()>, E>(ControlFlow::Continue(())));
                        acc = acc2;
                        vis = vis.push(*node);
                    }
                }
            },
        }
        i = i + 1;
    }
    proof {
        assert(tree@.subrange(0, n as int) =~= tree@);
        assert(walked(tree@, acc, Ok::<ControlFlow<T, ()>, E>(ControlFlow::Continue(())), *f));
    }
    Ok(ControlFlow::Continue(()))
}

fn call_it<'a, F, U, T, E>(f: &F, n: &Node<'a>) -> (a: Answer<T, E>)
    where
        F: Fn(&Node<'a>) -> U,
        Answer<T, E>: From<U>,
    requires
        forall|m: &Node<'a>| f.requires((m,)),
    ensures
        exists|u: U| f.ensures((n,), u) && call_ensures(Answer::<T, E>::from, (u,), a),
{
    let u = f(n);
    u.into()
}


/// Turns a callback on elements into one on nodes that continues past text and comments.
pub fn element<'a, F, E, U, T>(f: F) -> (g: impl Fn(&Node<'a>) -> Result<WalkResult<T>, E>)
    where
        F: Fn(&Element<'a>) -> U,
        Answer<T, E>: From<U>,
    requires
        forall|e: &Element<'a>| f.requires((e,)),
    ensures
        forall|n: &Node<'a>| g.requires((n,)),
        forall|n: &Node<'a>, a: Answer<T, E>| g.ensures((n,), a) ==> match *n {
            Node::Element(e) => exists|u: U| f.ensures((&e,), u) && call_ensures(Answer::<T, E>::from, (u,), a),
            _ => a == Ok::<WalkResult<T>, E>(WalkResult::Continue),
        },
{
    move |n: &Node<'a>| -> (a: Result<WalkResult<T>, E>)
        requires
            forall|e: &Element<'a>| f.requires((e,)),
        ensures
            match *n {
                Node::Element(e) => exists|u: U| f.ensures((&e,), u) && call_ensures(Answer::<T, E>::from, (u,), a),
                _ => a == Ok::<WalkResult<T>, E>(WalkResult::Continue),
            },
        {
            if let Node::Element(e) = n {
                f(e).into()
            } else {
                Ok(WalkResult::Continue)
            }
        }
}

/// Turns a callback on texts into one on nodes that continues past elements and comments.
pub fn text<'a, F, E, U, T>(f: F) -> (g: impl Fn(&Node<'a>) -> Result<WalkResult<T>, E>)
    where
        F: Fn(&Text<'a>) -> U,
        Answer<T, E>: From<U>,
    requires
        forall|t: &Text<'a>| f.requires((t,)),
    ensures
        forall|n: &Node<'a>| g.requires((n,)),
        forall|n: &Node<'a>, a: Answer<T, E>| g.ensures((n,), a) ==> match *n {
            Node::Text(t) => exists|u: U| f.ensures((&t,), u) && call_ensures(Answer::<T, E>::from, (u,), a),
            _ => a == Ok::<WalkResult<T>, E>(WalkResult::Continue),
        },
{
    move |n: &Node<'a>| -> (a: Result<WalkResult<T>, E>)
        requires
            forall|t: &Text<'a>| f.requires((t,)),
        ensures
            match *n {
                Node::Text(t) => exists|u: U| f.ensures((&t,), u) && call_ensures(Answer::<T, E>::from, (u,), a),
                _ => a == Ok::<WalkResult<T>, E>(WalkResult::Continue),
            },
        {
            if let Node::Text(t) = n {
                f(t).into()
            } else {
                Ok(WalkResult::Continue)
            }
        }
}

/// The node reached from the list `list` by taking, at each level, the child at the index
/// the path gives.
pub open spec fn node_at<'a>(list: Seq<Node<'a>>, path: Seq<usize>) -> Option<Node<'a>>
    decreases path.len(),
{
    if path.len() == 0 || path[0] >= list.len() {
        None
    } else if path.len() == 1 {
        Some(list[path[0] as int])
    } else {
        match list[path[0] as int] {
            Node::Element(e) => node_at(e.children@, path.drop_first()),
            _ => None,
        }
    }
}

/// `new` is `old` with the node at `path` replaced by `n`: every other node, and every
/// field of the elements above it but their children, stay as they were.
pub open spec fn replaced_at<'a>(old: Seq<Node<'a>>, new: Seq<Node<'a>>, path: Seq<usize>, n: Node<'a>) -> bool
    decreases path.len(),
{
    &&& path.len() > 0
    &&& path[0] < old.len()
    &&& new.len() == old.len()
    &&& forall|j: int| 0 <= j < old.len() && j != path[0] ==> #[trigger] new[j] == old[j]
    &&& if path.len() == 1 {
        new[path[0] as int] == n
    } else {
        match (old[path[0] as int], new[path[0] as int]) {
            (Node::Element(eo), Node::Element(en)) => {
                &&& en.id == eo.id
                &&& en.name == eo.name
                &&& en.variant == eo.variant
                &&& en.attributes == eo.attributes
                &&& en.classes == eo.classes
                &&& replaced_at(eo.children@, en.children@, path.drop_first(), n)
            },
            _ => false,
        }
    }
}

/// The position that follows `path` in a depth-first walk of `list`: into the first child
/// of the current node when `descend` and it has one, else to the next sibling of it or of
/// its nearest ancestor that has one; empty when the walk is over.
pub open spec fn next_in<'a>(list: Seq<Node<'a>>, path: Seq<usize>, descend: bool) -> Seq<usize>
    decreases path.len(),
{
    if path.len() == 0 || path[0] >= list.len() {
        Seq::empty()
    } else {
        let i = path[0];
        let sub = if path.len() == 1 {
            match list[i as int] {
                Node::Element(e) => if descend && e.children@.len() > 0 {
                    seq![0usize]
                } else {
                    Seq::empty()
                },
                _ => Seq::empty(),
            }
        } else {
            match list[i as int] {
                Node::Element(e) => next_in(e.children@, path.drop_first(), descend),
                _ => Seq::empty(),
            }
        };
        if sub.len() > 0 {
            seq![i] + sub
        } else if i + 1 < list.len() {
            seq![(i + 1) as usize]
        } else {
            Seq::empty()
        }
    }
}

/// Where a depth-first walk of a list of trees stands: the index taken at each level, from
/// the list down to the current node; empty once the walk is over.
pub struct WalkCursor {
    path: Vec<usize>,
}

impl View for WalkCursor {
    type V = Seq<usize>;

    closed spec fn view(&self) -> Seq<usize> {
        self.path@
    }
}

pub proof fn lemma_node_at_step<'a>(list: Seq<Node<'a>>, path: Seq<usize>, j: int)
    requires
        0 <= j < path.len() - 1,
        path[j] < node_list_at(list, path, j).len(),
    ensures
        node_at(node_list_at(list, path, j), path.skip(j)) == match node_list_at(list, path, j)[path[j] as int] {
            Node::Element(e) => node_at(e.children@, path.skip(j + 1)),
            _ => None,
        },
{
    assert(path.skip(j).drop_first() =~= path.skip(j + 1));
}

/// The list of siblings at level `j` along `path` (empty past a node that is no element).
pub open spec fn node_list_at<'a>(list: Seq<Node<'a>>, path: Seq<usize>, j: int) -> Seq<Node<'a>>
    decreases j,
{
    if j <= 0 {
        list
    } else {
        let up = node_list_at(list, path, j - 1);
        if path[j - 1] < up.len() {
            match up[path[j - 1] as int] {
                Node::Element(e) => e.children@,
                _ => Seq::empty(),
            }
        } else {
            Seq::empty()
        }
    }
}

/// The node at `path` in `list`, to change in place.
fn node_at_mut<'a, 'b>(list: &'b mut [Node<'a>], path: &[usize]) -> (r: &'b mut Node<'a>)
    requires
        node_at(old(list)@, path@) is Some,
    ensures
        *r == node_at(old(list)@, path@)->0,
        replaced_at(old(list)@, final(list)@, path@, *final(r)),
    decreases path@.len(),
{
    let i = path[0];
    if path.len() == 1 {
        return &mut list[i];
    }
    let rest = &path[1..path.len()];
    proof {
        assert(rest@ =~= path@.drop_first());
    }
    let n = &mut list[i];
    match n {
        Node::Element(e) => node_at_mut(e.children.as_mut_slice(), rest),
        other => {
            proof {
                assert(false);
            }
            other
        },
    }
}

/// A walk only ever moves to nodes that exist.
pub proof fn lemma_next_in_exists<'a>(list: Seq<Node<'a>>, path: Seq<usize>, descend: bool)
    ensures
        next_in(list, path, descend).len() > 0 ==> node_at(list, next_in(list, path, descend)) is Some,
    decreases path.len(),
{
    if path.len() > 0 && path[0] < list.len() {
        if let Node::Element(e) = list[path[0] as int] {
            let i = path[0];
            let sub = if path.len() == 1 {
                if descend && e.children@.len() > 0 {
                    seq![0usize]
                } else {
                    Seq::<usize>::empty()
                }
            } else {
                next_in(e.children@, path.drop_first(), descend)
            };
            if path.len() > 1 {
                lemma_next_in_exists(e.children@, path.drop_first(), descend);
            }
            if sub.len() > 0 {
                assert((seq![i] + sub).drop_first() =~= sub);
                assert(next_in(list, path, descend) == seq![i] + sub);
            }
        }
    }
}

/// The position after `path` in a depth-first walk of `list` (see [`next_in`]).
fn next_path(list: &[Node], path: &[usize], descend: bool) -> (r: Vec<usize>)
    ensures
        r@ == next_in(list@, path@, descend),
    decreases path@.len(),
{
    if path.len() == 0 || path[0] >= list.len() {
        return Vec::new();
    }
    let i = path[0];
    let sub: Vec<usize> = if path.len() == 1 {
        match &list[i] {
            Node::Element(e) => if descend && e.children.len() > 0 {
                vec![0usize]
            } else {
                Vec::new()
            },
            _ => Vec::new(),
        }
    } else {
        let rest = &path[1..path.len()];
        proof {
            assert(rest@ =~= path@.drop_first());
        }
        match &list[i] {
            Node::Element(e) => next_path(e.children.as_slice(), rest, descend),
            _ => Vec::new(),
        }
    };
    if sub.len() > 0 {
        let mut r: Vec<usize> = vec![i];
        let mut sub = sub;
        r.append(&mut sub);
        r
    } else if i + 1 < list.len() {
        vec![i + 1]
    } else {
        Vec::new()
    }
}

impl WalkCursor {
    /// A walk of `tree` that starts at its first node.
    pub fn new(tree: &[Node]) -> (c: Self)
        ensures
            c@ == walk_start(tree@),
            c@.len() > 0 ==> node_at(tree@, c@) is Some,
    {
        let mut path: Vec<usize> = Vec::new();
        if tree.len() > 0 {
            path.push(0);
        }
        WalkCursor { path }
    }

    /// Whether the walk is over.
    pub fn is_done(&self) -> (b: bool)
        ensures
            b == (self@.len() == 0),
    {
        self.path.len() == 0
    }

    /// The node the walk stands at, in `tree`, to change in place.
    pub fn current_mut<'a, 'b>(&self, tree: &'b mut [Node<'a>]) -> (r: &'b mut Node<'a>)
        requires
            node_at(old(tree)@, self@) is Some,
        ensures
            *r == node_at(old(tree)@, self@)->0,
            replaced_at(old(tree)@, final(tree)@, self@, *final(r)),
    {
        node_at_mut(tree, self.path.as_slice())
    }

    /// Moves on from the current node: into its first child when `descend` and it has one,
    /// else to the next node after its subtree (see [`next_in`]).
    pub fn advance(&mut self, tree: &[Node], descend: bool)
        ensures
            final(self)@ == next_in(tree@, old(self)@, descend),
            final(self)@.len() > 0 ==> node_at(tree@, final(self)@) is Some,
    {
        proof {
            lemma_next_in_exists(tree@, self@, descend);
        }
        self.path = next_path(tree, self.path.as_slice(), descend);
    }

    /// Moves on as the callback's answer at the current node says: into its children on
    /// `Continue`, past them on `Skip`; on `Break` the walk stays where it is and the value
    /// is handed back, to end the walk with.
    pub fn follow<T>(&mut self, tree: &[Node], answer: WalkResult<T>) -> (r: Option<T>)
        ensures
            match answer {
                WalkResult::Continue => r is None && final(self)@ == next_in(tree@, old(self)@, true),
                WalkResult::Skip => r is None && final(self)@ == next_in(tree@, old(self)@, false),
                WalkResult::Break(t) => r == Some(t) && final(self)@ == old(self)@,
            },
            final(self)@.len() > 0 && final(self)@ != old(self)@ ==> node_at(tree@, final(self)@) is Some,
    {
        match answer {
            WalkResult::Continue => {
                self.advance(tree, true);
                None
            },
            WalkResult::Skip => {
                self.advance(tree, false);
                None
            },
            WalkResult::Break(t) => Some(t),
        }
    }

    /// The node the walk stands at, in `tree`.
    pub fn current<'a, 'b>(&self, tree: &'b [Node<'a>]) -> (r: Option<&'b Node<'a>>)
        ensures
            match node_at(tree@, self@) {
                Some(n) => r == Some(&n),
                None => r is None,
            },
    {
        let k = self.path.len();
        if k == 0 {
            return None;
        }
        let mut list: &'b [Node<'a>] = tree;
        let mut j: usize = 0;
        assert(self.path@.skip(0) =~= self.path@);
        while j < k
            invariant
                k == self.path@.len(),
                k > 0,
                j < k,
                list@ == node_list_at(tree@, self.path@, j as int),
                node_at(tree@, self.path@) == node_at(list@, self.path@.skip(j as int)),
            decreases k - j,
        {
            let idx = self.path[j];
            if idx >= list.len() {
                return None;
            }
            if j == k - 1 {
                return Some(&list[idx]);
            }
            proof {
                lemma_node_at_step(tree@, self.path@, j as int);
            }
            match &list[idx] {
                Node::Element(e) => {
                    list = e.children.as_slice();
                },
                _ => {
                    return None;
                },
            }
            j = j + 1;
        }
        None
    }
}

/// A walk takes one answer at each node it visits.
pub proof fn lemma_visit_len<'a, T, E>(n: Node<'a>, a: Seq<Answer<T, E>>)
    ensures
        visit(n, a).1.len() >= 1,
        visit(n, a).1[0] == n,
{
}

/// Visiting the first node of `s`, then, if the walk goes on, walking the rest with the
/// answers that follow.
pub open spec fn walk_by_head<'a, T, E>(s: Seq<Node<'a>>, a: Seq<Answer<T, E>>) -> (Result<ControlFlow<T, ()>, E>, Seq<Node<'a>>) {
    let (r0, v0) = visit(s[0], a);
    if r0 matches Ok(ControlFlow::Continue(())) {
        let (r1, v1) = walk(s.drop_first(), a.skip(v0.len() as int));
        (r1, v0 + v1)
    } else {
        (r0, v0)
    }
}

/// A walk of a list is a walk by its head (see [`walk_by_head`]).
pub proof fn lemma_walk_head<'a, T, E>(s: Seq<Node<'a>>, a: Seq<Answer<T, E>>)
    requires
        s.len() > 0,
        walk(s, a).1.len() <= a.len(),
    ensures
        walk(s, a) == walk_by_head(s, a),
    decreases s.len(),
{
    let i = s.subrange(0, s.len() - 1);
    let t = s.drop_first();
    let (r0, v0) = visit(s[0], a);
    let cont = Ok::<ControlFlow<T, ()>, E>(ControlFlow::Continue(()));
    if s.len() == 1 {
        assert(i =~= Seq::<Node<'a>>::empty());
        assert(a.skip(0) =~= a);
        assert(t =~= Seq::<Node<'a>>::empty());
        assert(walk(i, a) == (cont, Seq::<Node<'a>>::empty()));
        assert(walk(t, a.skip(v0.len() as int)) == (cont, Seq::<Node<'a>>::empty()));
        assert(Seq::<Node<'a>>::empty() + v0 =~= v0);
        assert(v0 + Seq::<Node<'a>>::empty() =~= v0);
        assert(walk(s, a) == (r0, v0));
        if let Ok(ControlFlow::Continue(u)) = r0 {
            assert(u == ());
        }
        assert(walk(s, a) == walk_by_head(s, a));
    } else {
        let (ri, vi) = walk(i, a);
        assert(vi.len() <= walk(s, a).1.len());
        lemma_walk_head(i, a);
        assert(i[0] == s[0]);
        assert(i.drop_first() =~= t.subrange(0, t.len() - 1));
        assert(t.last() == s.last());
        if r0 matches Ok(ControlFlow::Continue(())) {
            let b = a.skip(v0.len() as int);
            let (r1, v1) = walk(i.drop_first(), b);
            assert(vi == v0 + v1);
            if r1 matches Ok(ControlFlow::Continue(())) {
                assert(b.skip(v1.len() as int) =~= a.skip(vi.len() as int));
                let (rl, vl) = visit(s.last(), a.skip(vi.len() as int));
                assert(v0 + v1 + vl =~= v0 + (v1 + vl));
                assert(walk(t, b) == (rl, v1 + vl));
                assert(walk(s, a) == walk_by_head(s, a));
            } else {
                assert(walk(t, b) == (r1, v1));
                assert(walk(s, a) == walk_by_head(s, a));
            }
        } else {
            assert(walk(i, a) == (r0, v0));
            assert(walk(s, a) == walk_by_head(s, a));
        }
    }
}

/// The answer `a` at `n` lets the walk go on through all of `n`: `Continue`, or `Skip` at a
/// text or a comment, which have no children to pass over.
pub open spec fn goes_through<'a, T, E>(n: Node<'a>, a: Answer<T, E>) -> bool {
    a matches Ok(WalkResult::Continue) || (a matches Ok(WalkResult::Skip) && !(n is Element))
}

/// The nodes of a list of trees, the last tree split off.
pub proof fn lemma_forest_last<'a>(s: Seq<Node<'a>>)
    requires
        s.len() > 0,
    ensures
        forest(s) == forest(s.subrange(0, s.len() - 1)) + seq![s.last()] + descendants(s.last()),
    decreases s.len(),
{
    let i = s.subrange(0, s.len() - 1);
    let t = s.subrange(1, s.len() as int);
    if s.len() == 1 {
        assert(i =~= Seq::<Node<'a>>::empty());
        assert(t =~= Seq::<Node<'a>>::empty());
        assert(forest(t) == Seq::<Node<'a>>::empty());
        assert(forest(i) == Seq::<Node<'a>>::empty());
        assert(s.last() == s[0]);
        assert(forest(s) =~= Seq::<Node<'a>>::empty() + seq![s.last()] + descendants(s.last()));
    } else {
        lemma_forest_last(t);
        assert(i[0] == s[0]);
        assert(i.subrange(1, i.len() as int) =~= t.subrange(0, t.len() - 1));
        assert(t.last() == s.last());
        let f0 = seq![s[0]] + descendants(s[0]);
        let fm = forest(t.subrange(0, t.len() - 1));
        assert(forest(s) =~= f0 + (fm + seq![s.last()] + descendants(s.last())));
        assert(forest(i) =~= f0 + fm);
    }
}

/// A walk whose answers all go on (see [`goes_through`]) visits every node of the trees,
/// each once, in document order: each node, then its descendants; and it ends by going on.
pub proof fn law_walk_through_visits_every_node<'a, T, E>(s: Seq<Node<'a>>, ans: Seq<Answer<T, E>>)
    requires
        ans.len() >= forest(s).len(),
        forall|k: int| 0 <= k < forest(s).len() ==> goes_through(#[trigger] forest(s)[k], ans[k]),
    ensures
        walk(s, ans) == (Ok::<ControlFlow<T, ()>, E>(ControlFlow::Continue(())), forest(s)),
    decreases s,
{
    if s.len() > 0 {
        let i = s.subrange(0, s.len() - 1);
        let l = s.last();
        lemma_forest_last(s);
        let fi = forest(i);
        let fl = seq![l] + descendants(l);
        assert(forest(s) =~= fi + fl);
        assert forall|k: int| 0 <= k < fi.len() implies goes_through(#[trigger] fi[k], ans[k]) by {
            assert(forest(s)[k] == fi[k]);
        }
        law_walk_through_visits_every_node(i, ans);
        let b = ans.skip(fi.len() as int);
        assert forall|k: int| 0 <= k < fl.len() implies goes_through(#[trigger] fl[k], b[k]) by {
            assert(forest(s)[fi.len() + k] == fl[k]);
            assert(b[k] == ans[fi.len() + k]);
        }
        lemma_visit_through(l, b);
        assert(fi + fl =~= forest(s));
    } else {
        assert(forest(s) =~= Seq::<Node<'a>>::empty());
    }
}

/// Visiting a node with answers that all go on visits the node, then its descendants.
pub proof fn lemma_visit_through<'a, T, E>(n: Node<'a>, a: Seq<Answer<T, E>>)
    requires
        a.len() >= 1 + descendants(n).len(),
        forall|k: int| 0 <= k < 1 + descendants(n).len() ==> goes_through(#[trigger] (seq![n] + descendants(n))[k], a[k]),
    ensures
        visit(n, a) == (Ok::<ControlFlow<T, ()>, E>(ControlFlow::Continue(())), seq![n] + descendants(n)),
    decreases n,
{
    assert((seq![n] + descendants(n))[0] == n);
    assert(goes_through(n, a[0]));
    match n {
        Node::Element(e) => {
            let c = e.children@;
            assert(descendants(n) == forest(c));
            let b = a.skip(1);
            assert forall|k: int| 0 <= k < forest(c).len() implies goes_through(#[trigger] forest(c)[k], b[k]) by {
                assert((seq![n] + descendants(n))[k + 1] == forest(c)[k]);
                assert(b[k] == a[k + 1]);
            }
            assert(decreases_to!(n => c));
            law_walk_through_visits_every_node(c, b);
        },
        _ => {
            assert(descendants(n) == Seq::<Node<'a>>::empty());
            assert(seq![n] + descendants(n) =~= seq![n]);
        },
    }
}

/// A walk whose every answer goes on at the node that takes it (see [`goes_through`]), and
/// which takes no more answers than it has, visits the trees whole and goes on.
pub proof fn lemma_walk_going_through<'a, T, E>(s: Seq<Node<'a>>, ans: Seq<Answer<T, E>>)
    requires
        walk(s, ans).1.len() <= ans.len(),
        forall|k: int| 0 <= k < walk(s, ans).1.len() ==> goes_through(#[trigger] walk(s, ans).1[k], ans[k]),
    ensures
        walk(s, ans) == (Ok::<ControlFlow<T, ()>, E>(ControlFlow::Continue(())), forest(s)),
    decreases s,
{
    if s.len() > 0 {
        let i = s.subrange(0, s.len() - 1);
        let l = s.last();
        let (ri, vi) = walk(i, ans);
        let v = walk(s, ans).1;
        assert forall|k: int| 0 <= k < vi.len() implies goes_through(#[trigger] vi[k], ans[k]) by {
            assert(v[k] == vi[k]);
        }
        lemma_walk_going_through(i, ans);
        let b = ans.skip(vi.len() as int);
        let (rl, vl) = visit(l, b);
        assert(v == vi + vl);
        assert forall|k: int| 0 <= k < vl.len() implies goes_through(#[trigger] vl[k], b[k]) by {
            assert(v[vi.len() + k] == vl[k]);
            assert(b[k] == ans[vi.len() + k]);
        }
        lemma_visit_going_through(l, b);
        lemma_forest_last(s);
        assert(forest(i) + (seq![l] + descendants(l)) =~= forest(s));
    } else {
        assert(forest(s) =~= Seq::<Node<'a>>::empty());
    }
}

/// A visit whose every answer goes on visits the node, then its descendants.
pub proof fn lemma_visit_going_through<'a, T, E>(n: Node<'a>, a: Seq<Answer<T, E>>)
    requires
        visit(n, a).1.len() <= a.len(),
        forall|k: int| 0 <= k < visit(n, a).1.len() ==> goes_through(#[trigger] visit(n, a).1[k], a[k]),
    ensures
        visit(n, a) == (Ok::<ControlFlow<T, ()>, E>(ControlFlow::Continue(())), seq![n] + descendants(n)),
    decreases n,
{
    lemma_visit_len(n, a);
    assert(goes_through(n, a[0]));
    match n {
        Node::Element(e) => {
            let c = e.children@;
            let b = a.skip(1);
            let (rc, vc) = walk(c, b);
            let v = visit(n, a).1;
            assert(v == seq![n] + vc);
            assert forall|k: int| 0 <= k < vc.len() implies goes_through(#[trigger] vc[k], b[k]) by {
                assert(v[k + 1] == vc[k]);
                assert(b[k] == a[k + 1]);
            }
            assert(decreases_to!(n => c));
            lemma_walk_going_through(c, b);
        },
        _ => {
            assert(seq![n] + descendants(n) =~= seq![n]);
        },
    }
}

/// A walk with a callback whose every answer goes on at the node it is given (`Continue`,
/// or `Skip` at a text or a comment) calls it once on every node of the trees, in document
/// order (each node, then its descendants), and ends with `Continue`.
pub proof fn law_callback_going_through_visits_every_node<'a, F, U, T, E>(
    s: Seq<Node<'a>>,
    ans: Seq<Answer<T, E>>,
    r: Result<ControlFlow<T, ()>, E>,
    f: F,
)
    where
        F: Fn(&Node<'a>) -> U,
        Answer<T, E>: From<U>,
    requires
        walked(s, ans, r, f),
        forall|n: Node<'a>, a: Answer<T, E>| #[trigger] answered(f, n, a) ==> goes_through(n, a),
    ensures
        r == Ok::<ControlFlow<T, ()>, E>(ControlFlow::Continue(())),
        walk(s, ans).1 == forest(s),
        ans.len() == forest(s).len(),
{
    assert forall|k: int| 0 <= k < walk(s, ans).1.len() implies goes_through(#[trigger] walk(s, ans).1[k], ans[k]) by {
        assert(answered(f, walk(s, ans).1[k], ans[k]));
    }
    lemma_walk_going_through(s, ans);
}

/// Where a walk of `tree` starts: at its first node, if it has one.
pub open spec fn walk_start<'a>(tree: Seq<Node<'a>>) -> Seq<usize> {
    if tree.len() > 0 {
        seq![0usize]
    } else {
        Seq::empty()
    }
}

/// The position after the `j`-th node of the list `s`, at the top of the tree: the next
/// node of `s`, if any.
pub open spec fn next_sibling<'a>(s: Seq<Node<'a>>, j: usize) -> Seq<usize> {
    if j + 1 < s.len() {
        seq![(j + 1) as usize]
    } else {
        Seq::empty()
    }
}

/// The walk a [`WalkCursor`] makes over `tree` from `path`, given the answers in order: at
/// each node it takes the next answer and moves on as [`WalkCursor::follow`] does, into the
/// children on `Continue`; the outcome and the nodes visited, or none when the answers run
/// out before the walk ends.
pub open spec fn cursor_walk<'a, T, E>(tree: Seq<Node<'a>>, path: Seq<usize>, ans: Seq<Answer<T, E>>) -> Option<
    (Result<ControlFlow<T, ()>, E>, Seq<Node<'a>>),
>
    decreases ans.len(),
{
    match node_at(tree, path) {
        None => Some((Ok(ControlFlow::Continue(())), Seq::empty())),
        Some(n) => if ans.len() == 0 {
            None
        } else {
            match ans[0] {
                Err(e) => Some((Err(e), seq![n])),
                Ok(WalkResult::Break(t)) => Some((Ok(ControlFlow::Break(t)), seq![n])),
                Ok(WalkResult::Skip) => match cursor_walk(tree, next_in(tree, path, false), ans.drop_first()) {
                    Some((r, v)) => Some((r, seq![n] + v)),
                    None => None,
                },
                Ok(WalkResult::Continue) => match cursor_walk(tree, next_in(tree, path, true), ans.drop_first()) {
                    Some((r, v)) => Some((r, seq![n] + v)),
                    None => None,
                },
            }
        },
    }
}

/// The cursor takes one answer at each node it visits.
pub proof fn lemma_cursor_walk_len<'a, T, E>(tree: Seq<Node<'a>>, path: Seq<usize>, ans: Seq<Answer<T, E>>)
    ensures
        cursor_walk(tree, path, ans) matches Some((r, v)) ==> v.len() <= ans.len(),
    decreases ans.len(),
{
    if node_at(tree, path) is Some && ans.len() > 0 {
        lemma_cursor_walk_len(tree, next_in(tree, path, false), ans.drop_first());
        lemma_cursor_walk_len(tree, next_in(tree, path, true), ans.drop_first());
    }
}

/// Inside the `j`-th node of `s`, an element, the cursor walks as it does over the element's
/// children; once it leaves them, it goes on from the next node of `s`.
pub proof fn lemma_cursor_walk_inside<'a, T, E>(s: Seq<Node<'a>>, j: usize, e: Element<'a>, q: Seq<usize>, a: Seq<Answer<T, E>>)
    requires
        j < s.len(),
        s[j as int] == Node::Element(e),
        q.len() > 0,
        node_at(e.children@, q) is Some,
    ensures
        cursor_walk(s, seq![j] + q, a) == match cursor_walk(e.children@, q, a) {
            None => None,
            Some((r, v)) => if r matches Ok(ControlFlow::Continue(())) {
                match cursor_walk(s, next_sibling(s, j), a.skip(v.len() as int)) {
                    None => None,
                    Some((r2, v2)) => Some((r2, v + v2)),
                }
            } else {
                Some((r, v))
            },
        },
    decreases a.len(),
{
    let c = e.children@;
    let path = seq![j] + q;
    assert(path.drop_first() =~= q);
    let n = node_at(c, q)->0;
    assert(node_at(s, path) == Some(n));
    if a.len() > 0 {
        let a1 = a.drop_first();
        assert(a.skip(1) =~= a1);
        let d = match a[0] {
            Ok(WalkResult::Continue) => true,
            _ => false,
        };
        if a[0] matches Ok(WalkResult::Skip) || a[0] matches Ok(WalkResult::Continue) {
            let sub = next_in(c, q, d);
            assert(next_in(s, path, d) == if sub.len() > 0 {
                seq![j] + sub
            } else {
                next_sibling(s, j)
            });
            lemma_cursor_walk_len(c, sub, a1);
            if sub.len() > 0 {
                lemma_next_in_exists(c, q, d);
                lemma_cursor_walk_inside(s, j, e, sub, a1);
                if let Some((r1, v1)) = cursor_walk(c, sub, a1) {
                    assert(a1.skip(v1.len() as int) =~= a.skip(1 + v1.len() as int));
                    if let Some((r2, v2)) = cursor_walk(s, next_sibling(s, j), a1.skip(v1.len() as int)) {
                        assert(seq![n] + (v1 + v2) =~= seq![n] + v1 + v2);
                    }
                }
            } else {
                assert(node_at(c, sub) is None);
                assert(seq![n] + Seq::<Node<'a>>::empty() =~= seq![n]);
            }
        }
    }
}

/// From the `j`-th node of a list on, the cursor walks as [`walk`] walks the rest of the
/// list.
pub proof fn lemma_cursor_walk_list<'a, T, E>(s: Seq<Node<'a>>, j: usize, a: Seq<Answer<T, E>>)
    requires
        j < s.len() <= usize::MAX,
        walk(s.skip(j as int), a).1.len() <= a.len(),
    ensures
        cursor_walk(s, seq![j], a) == Some(walk(s.skip(j as int), a)),
    decreases s, s.len() - j,
{
    let h = s[j as int];
    let sj = s.skip(j as int);
    let rest = s.skip(j + 1);
    assert(sj[0] == h);
    assert(sj.drop_first() =~= rest);
    lemma_walk_head(sj, a);
    lemma_visit_len(h, a);
    let (r0, v0) = visit(h, a);
    assert(v0.len() <= walk(sj, a).1.len());
    assert(a.len() > 0);
    let a1 = a.drop_first();
    assert(a.skip(1) =~= a1);
    assert(node_at(s, seq![j]) == Some(h));
    let cont = Ok::<ControlFlow<T, ()>, E>(ControlFlow::Continue(()));
    let into = match h {
        Node::Element(e) => a[0] matches Ok(WalkResult::Continue) && e.children@.len() > 0,
        _ => false,
    };
    if a[0] matches Ok(WalkResult::Skip) || (a[0] matches Ok(WalkResult::Continue) && !into) {
        let d = a[0] matches Ok(WalkResult::Continue);
        assert(next_in(s, seq![j], d) == next_sibling(s, j));
        assert(v0 == seq![h]);
        assert(r0 == cont);
        assert(walk(sj, a).1 == v0 + walk(rest, a1).1);
        if j + 1 < s.len() {
            lemma_cursor_walk_list(s, (j + 1) as usize, a1);
        } else {
            assert(rest =~= Seq::<Node<'a>>::empty());
        }
        let (r1, v1) = walk(rest, a1);
        assert(seq![h] + v1 == v0 + v1);
        assert(cursor_walk(s, next_sibling(s, j), a1) == Some(walk(rest, a1)));
        assert(walk(sj, a) == (r1, v0 + v1));
        assert(cursor_walk(s, seq![j], a) == Some(walk(sj, a)));
    } else if into {
        if let Node::Element(e) = h {
            let c = e.children@;
            assert(decreases_to!(s => c));
            assert(c.len() == e.children.len());
            assert(next_in(s, seq![j], true) =~= seq![j] + seq![0usize]);
            assert(c.skip(0) =~= c);
            let (rc, vc) = walk(c, a1);
            assert(v0 == seq![h] + vc);
            assert(vc.len() <= a1.len());
            lemma_cursor_walk_list(c, 0, a1);
            lemma_cursor_walk_inside(s, j, e, seq![0usize], a1);
            if rc matches Ok(ControlFlow::Continue(())) {
                let a2 = a1.skip(vc.len() as int);
                assert(a2 =~= a.skip(v0.len() as int));
                assert(walk(sj, a).1 == v0 + walk(rest, a2).1);
                if j + 1 < s.len() {
                    lemma_cursor_walk_list(s, (j + 1) as usize, a2);
                } else {
                    assert(rest =~= Seq::<Node<'a>>::empty());
                }
                let (r2, v2) = walk(rest, a2);
                assert(seq![h] + (vc + v2) =~= v0 + v2);
                assert(cursor_walk(s, next_sibling(s, j), a2) == Some(walk(rest, a2)));
                assert(cursor_walk(s, seq![j], a) == Some(walk(sj, a)));
            } else {
                assert(cursor_walk(s, seq![j], a) == Some(walk(sj, a)));
            }
        }
    } else {
        assert(cursor_walk(s, seq![j], a) == Some(walk(sj, a)));
    }
}

/// A cursor that takes the answers a walk of `tree` takes, and moves on as they say,
/// visits the nodes that [`ForEach::for_each`] visits, in the same order, and ends the same
/// way (see [`walk`]).
pub proof fn law_cursor_walks_as_for_each<'a, T, E>(tree: Seq<Node<'a>>, ans: Seq<Answer<T, E>>)
    requires
        tree.len() <= usize::MAX,
        walk(tree, ans).1.len() <= ans.len(),
    ensures
        cursor_walk(tree, walk_start(tree), ans) == Some(walk(tree, ans)),
{
    if tree.len() > 0 {
        assert(tree.skip(0) =~= tree);
        lemma_cursor_walk_list(tree, 0, ans);
    }
}

/// A tree that can be walked from its root nodes.
pub trait ForEach<'a> {
    /// The root nodes, as a value.
    spec fn root_nodes(&self) -> Seq<Node<'a>>;

    fn root(&self) -> (r: &[Node<'a>])
        ensures
            r@ == self.root_nodes(),
    ;

    /// Walks the tree depth first, asking `f` at each node (see [`walk`]).
    fn for_each<F, E, T, U>(&self, f: F) -> (r: Result<ControlFlow<T, ()>, E>)
        where
            F: Fn(&Node<'a>) -> U,
            Answer<T, E>: From<U>,
        requires
            forall|m: &Node<'a>| f.requires((m,)),
        ensures
            exists|ans: Seq<Answer<T, E>>| walked(self.root_nodes(), ans, r, f),
            (forall|n: Node<'a>, a: Answer<T, E>| #[trigger] answered(f, n, a) ==> goes_through(n, a)) ==> r
                == Ok::<ControlFlow<T, ()>, E>(ControlFlow::Continue(())),
    {
        let r = inner_for_each(self.root(), &f);
        proof {
            let ans = choose|ans: Seq<Answer<T, E>>| walked(self.root_nodes(), ans, r, f);
            if forall|n: Node<'a>, a: Answer<T, E>| #[trigger] answered(f, n, a) ==> goes_through(n, a) {
                law_callback_going_through_visits_every_node(self.root_nodes(), ans, r, f);
            }
        }
        r
    }

    fn root_mut(&mut self) -> (r: &mut [Node<'a>])
        ensures
            r@ == old(self).root_nodes(),
    ;
}

impl<'a> ForEach<'a> for crate::dom::Dom<'a> {
    open spec fn root_nodes(&self) -> Seq<Node<'a>> {
        self.children@
    }

    fn root(&self) -> (r: &[Node<'a>]) {
        self.children.as_slice()
    }

    fn root_mut(&mut self) -> (r: &mut [Node<'a>]) {
        self.children.as_mut_slice()
    }
}

impl<'a> ForEach<'a> for Element<'a> {
    open spec fn root_nodes(&self) -> Seq<Node<'a>> {
        self.children@
    }

    fn root(&self) -> (r: &[Node<'a>]) {
        self.children.as_slice()
    }

    fn root_mut(&mut self) -> (r: &mut [Node<'a>]) {
        self.children.as_mut_slice()
    }
}

impl<'a> ForEach<'a> for Node<'a> {
    open spec fn root_nodes(&self) -> Seq<Node<'a>> {
        seq![*self]
    }

    fn root(&self) -> (r: &[Node<'a>]) {
        slice_of_one(self)
    }

    fn root_mut(&mut self) -> (r: &mut [Node<'a>]) {
        slice_of_one_mut(self)
    }
}

/// Calls `std::slice::from_ref`: the one-element slice holding `x`.
#[verifier::external_body]
fn slice_of_one<T>(x: &T) -> (r: &[T])
    ensures
        r@ == seq![*x],
{
    std::slice::from_ref(x)
}

/// Calls `std::slice::from_mut`: the one-element slice holding `x`, through which `x`
/// changes.
#[verifier::external_body]
fn slice_of_one_mut<T>(x: &mut T) -> (r: &mut [T])
    ensures
        r@ == seq![*old(x)],
        final(r)@ == seq![*final(x)],
{
    std::slice::from_mut(x)
}

impl<T> From<WalkResult<T>> for Result<WalkResult<T>, std::convert::Infallible> {
    fn from(val: WalkResult<T>) -> (r: Self) {
        Ok(val)
    }
}

impl<T> vstd::std_specs::convert::FromSpecImpl<WalkResult<T>> for Result<WalkResult<T>, std::convert::Infallible> {
    open spec fn obeys_from_spec() -> bool {
        true
    }

    open spec fn from_spec(v: WalkResult<T>) -> Self {
        Ok(v)
    }
}

/// Gives nothing back: a value of `Infallible` cannot exist, so this is never called.
#[verifier::external_body]
fn unreachable_infallible<T>(e: std::convert::Infallible) -> T {
    match e {}
}

/// The outcome of a walk that cannot fail.
pub trait NoErr<T> {
    fn no_err(self) -> ControlFlow<T, ()>;
}

impl<T> NoErr<T> for Result<ControlFlow<T, ()>, std::convert::Infallible> {
    fn no_err(self) -> (r: ControlFlow<T, ()>)
        ensures
            self matches Ok(c) ==> r == c,
    {
        match self {
            Ok(c) => c,
            Err(e) => unreachable_infallible(e),
        }
    }
}

/// The outcome of a walk that cannot break.
pub trait NoBrk {
    fn no_brk(self) -> ();
}

impl NoBrk for ControlFlow<(), ()> {
    fn no_brk(self) {
    }
}

} // verus!
