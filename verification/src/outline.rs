//! The outline builder: turns the flat sequence of headings into a forest of
//! nested entries with a stack of open nodes and an attach-on-pop rule. The
//! meaning of the forest is `outline_of`: each node's children are exactly the
//! headings that follow it, with strictly greater level, up to the next
//! heading at the same or a shallower level.

use vstd::prelude::*;

verus! {

/// One outline entry: a heading's level, its title, and its sub-entries in
/// document order.
pub struct TocEntry {
    pub level: u8,
    pub title: Vec<u8>,
    pub children: Vec<TocEntry>,
}

/// The mathematical image of a `TocEntry`.
pub struct Node {
    pub level: u8,
    pub title: Seq<u8>,
    pub children: Seq<Node>,
}

/// The image of the entries of `v` from index `i` on.
pub open spec fn forest_view_from(v: Vec<TocEntry>, i: int) -> Seq<Node>
    decreases v, v@.len() - i,
{
    if i < 0 || i >= v@.len() {
        Seq::empty()
    } else {
        seq![entry_view(v@[i])] + forest_view_from(v, i + 1)
    }
}

/// The image of one entry.
pub open spec fn entry_view(e: TocEntry) -> Node
    decreases e,
{
    Node { level: e.level, title: e.title@, children: forest_view_from(e.children, 0) }
}

/// The image of a whole entry vector.
pub open spec fn forest_view(v: Vec<TocEntry>) -> Seq<Node> {
    forest_view_from(v, 0)
}

pub proof fn lemma_forest_view_from(v: Vec<TocEntry>, i: int)
    requires
        0 <= i <= v@.len(),
    ensures
        forest_view_from(v, i).len() == v@.len() - i,
        forall|j: int|
            i <= j < v@.len() ==> forest_view_from(v, i)[j - i] == entry_view(v@[j]),
    decreases v@.len() - i,
{
    if i < v@.len() {
        lemma_forest_view_from(v, i + 1);
    }
}

/// The image respects length and elements.
pub proof fn lemma_forest_view(v: Vec<TocEntry>)
    ensures
        forest_view(v).len() == v@.len(),
        forall|j: int| 0 <= j < v@.len() ==> forest_view(v)[j] == entry_view(v@[j]),
{
    lemma_forest_view_from(v, 0);
}

/// The heading pair a node came from.
pub open spec fn leaf(h: (u8, Seq<u8>)) -> Node {
    Node { level: h.0, title: h.1, children: Seq::empty() }
}

/// The least index at or after `i` whose heading level does not exceed `lvl`,
/// or the length when there is none.
pub open spec fn boundary_from(hs: Seq<(u8, Seq<u8>)>, lvl: u8, i: int) -> int
    decreases hs.len() - i + 1,
{
    if i < 0 || i >= hs.len() {
        hs.len() as int
    } else if hs[i].0 <= lvl {
        i
    } else {
        boundary_from(hs, lvl, i + 1)
    }
}

pub proof fn lemma_boundary_from(hs: Seq<(u8, Seq<u8>)>, lvl: u8, i: int)
    requires
        0 <= i <= hs.len(),
    ensures
        i <= boundary_from(hs, lvl, i) <= hs.len(),
        forall|j: int| i <= j < boundary_from(hs, lvl, i) ==> hs[j].0 > lvl,
        boundary_from(hs, lvl, i) < hs.len() ==> hs[boundary_from(hs, lvl, i)].0 <= lvl,
    decreases hs.len() - i + 1,
{
    if i < hs.len() && hs[i].0 > lvl {
        lemma_boundary_from(hs, lvl, i + 1);
    }
}

/// The outline of a flat heading sequence: the first heading becomes a node
/// whose children are the strictly deeper headings that follow it, up to the
/// next heading at its level or shallower, and the rest of the sequence is
/// built the same way beside it.
pub open spec fn outline_of(hs: Seq<(u8, Seq<u8>)>) -> Seq<Node>
    decreases hs.len(),
    via outline_of_dec
{
    if hs.len() == 0 {
        Seq::empty()
    } else {
        let b = boundary_from(hs, hs[0].0, 1);
        seq![
            Node {
                level: hs[0].0,
                title: hs[0].1,
                children: outline_of(hs.subrange(1, b)),
            },
        ] + outline_of(hs.skip(b))
    }
}

#[via_fn]
proof fn outline_of_dec(hs: Seq<(u8, Seq<u8>)>) {
    if hs.len() > 0 {
        lemma_boundary_from(hs, hs[0].0, 1);
    }
}

/// Attaches one heading to a forest: as a new top-level node when the last
/// node is at its level or deeper, else recursively to that node's children.
pub open spec fn attach(f: Seq<Node>, h: (u8, Seq<u8>)) -> Seq<Node>
    decreases forest_size(f),
    via attach_dec
{
    if f.len() == 0 {
        seq![leaf(h)]
    } else if f.last().level >= h.0 {
        f.push(leaf(h))
    } else {
        f.update(
            f.len() - 1,
            Node {
                level: f.last().level,
                title: f.last().title,
                children: attach(f.last().children, h),
            },
        )
    }
}

#[via_fn]
proof fn attach_dec(f: Seq<Node>, h: (u8, Seq<u8>)) {
    if f.len() > 0 && f.last().level < h.0 {
        lemma_forest_size_last(f);
    }
}

pub open spec fn node_size(n: Node) -> nat
    decreases n,
{
    1 + forest_size(n.children)
}

pub open spec fn forest_size(f: Seq<Node>) -> nat
    decreases f, f.len(),
{
    if f.len() == 0 {
        0
    } else {
        node_size(f[0]) + forest_size(f.drop_first())
    }
}

proof fn lemma_forest_size_last(f: Seq<Node>)
    requires
        f.len() > 0,
    ensures
        forest_size(f) >= node_size(f.last()),
    decreases f.len(),
{
    if f.len() == 1 {
        assert(f[0] == f.last());
    } else {
        lemma_forest_size_last(f.drop_first());
        assert(f.drop_first().last() == f.last());
    }
}

/// `attach` only touches the last tree of a forest.
proof fn lemma_attach_prefix(f1: Seq<Node>, f2: Seq<Node>, h: (u8, Seq<u8>))
    requires
        f2.len() > 0,
    ensures
        attach(f1 + f2, h) == f1 + attach(f2, h),
{
    let f = f1 + f2;
    assert(f.last() == f2.last());
    if f2.last().level >= h.0 {
        assert(f.push(leaf(h)) =~= f1 + f2.push(leaf(h)));
    } else {
        let n = Node {
            level: f2.last().level,
            title: f2.last().title,
            children: attach(f2.last().children, h),
        };
        assert(f.update(f.len() - 1, n) =~= f1 + f2.update(f2.len() - 1, n));
    }
}

/// The outline of nothing is nothing.
pub proof fn lemma_outline_empty()
    ensures
        outline_of(Seq::<(u8, Seq<u8>)>::empty()) == Seq::<Node>::empty(),
{
    assert(outline_of(Seq::<(u8, Seq<u8>)>::empty()) =~= Seq::<Node>::empty());
}

/// The outline of one heading is one childless node.
pub proof fn lemma_outline_single(h: (u8, Seq<u8>))
    ensures
        outline_of(seq![h]) == seq![leaf(h)],
{
    let s = seq![h];
    lemma_outline_empty();
    assert(boundary_from(s, h.0, 1) == 1);
    assert(s.subrange(1, 1) =~= Seq::<(u8, Seq<u8>)>::empty());
    assert(s.skip(1) =~= Seq::<(u8, Seq<u8>)>::empty());
    let n = Node { level: s[0].0, title: s[0].1, children: outline_of(s.subrange(1, 1)) };
    assert(n.children =~= leaf(h).children);
    assert(n == leaf(h));
    assert(outline_of(s) =~= seq![leaf(h)]);
}

/// Appending one heading to the flat sequence attaches it to the outline.
pub proof fn lemma_outline_snoc(hs: Seq<(u8, Seq<u8>)>, h: (u8, Seq<u8>))
    ensures
        outline_of(hs.push(h)) == attach(outline_of(hs), h),
    decreases hs.len(),
{
    let s2 = hs.push(h);
    if hs.len() == 0 {
        assert(s2 =~= seq![h]);
        lemma_outline_single(h);
        assert(outline_of(hs) =~= Seq::<Node>::empty()) by {
            assert(hs =~= Seq::<(u8, Seq<u8>)>::empty());
            lemma_outline_empty();
        }
        assert(attach(outline_of(hs), h) =~= seq![leaf(h)]);
    } else {
        let lvl = hs[0].0;
        let b = boundary_from(hs, lvl, 1);
        lemma_boundary_from(hs, lvl, 1);
        lemma_boundary_push(hs, h, lvl, 1);
        if b < hs.len() {
            // The first tree is unchanged; the new heading lands in the rest.
            assert(boundary_from(s2, lvl, 1) == b);
            assert(s2.subrange(1, b) =~= hs.subrange(1, b));
            assert(s2.skip(b) =~= hs.skip(b).push(h));
            lemma_outline_snoc(hs.skip(b), h);
            let n0 = Node { level: lvl, title: hs[0].1, children: outline_of(hs.subrange(1, b)) };
            assert(outline_of(s2) == seq![n0] + attach(outline_of(hs.skip(b)), h));
            assert(outline_of(hs.skip(b)).len() > 0);
            lemma_attach_prefix(seq![n0], outline_of(hs.skip(b)), h);
        } else if h.0 <= lvl {
            // The new heading closes the only tree and stands beside it.
            assert(boundary_from(s2, lvl, 1) == hs.len());
            assert(s2.subrange(1, hs.len() as int) =~= hs.subrange(1, b));
            assert(s2.skip(hs.len() as int) =~= seq![h]);
            lemma_outline_single(h);
            let n0 = Node { level: lvl, title: hs[0].1, children: outline_of(hs.subrange(1, b)) };
            assert(hs.skip(b) =~= Seq::<(u8, Seq<u8>)>::empty());
            lemma_outline_empty();
            assert(outline_of(hs) =~= seq![n0]);
            assert(outline_of(s2) =~= seq![n0, leaf(h)]);
            assert(attach(outline_of(hs), h) =~= seq![n0].push(leaf(h)));
        } else {
            // The new heading is deeper than everything: it joins the children.
            assert(boundary_from(s2, lvl, 1) == s2.len());
            assert(s2.subrange(1, s2.len() as int) =~= hs.subrange(1, b).push(h));
            assert(hs.subrange(1, b) =~= hs.skip(1));
            lemma_outline_snoc(hs.subrange(1, b), h);
            assert(s2.skip(s2.len() as int) =~= Seq::<(u8, Seq<u8>)>::empty());
            let n0 = Node { level: lvl, title: hs[0].1, children: outline_of(hs.subrange(1, b)) };
            assert(hs.skip(b) =~= Seq::<(u8, Seq<u8>)>::empty());
            lemma_outline_empty();
            assert(outline_of(hs) =~= seq![n0]);
            let n0p = Node {
                level: lvl,
                title: hs[0].1,
                children: attach(outline_of(hs.subrange(1, b)), h),
            };
            assert(outline_of(s2) =~= seq![n0p]);
            assert(attach(outline_of(hs), h) =~= seq![n0p]);
        }
    }
}

/// How appending a heading moves the boundary.
proof fn lemma_boundary_push(hs: Seq<(u8, Seq<u8>)>, h: (u8, Seq<u8>), lvl: u8, i: int)
    requires
        1 <= i <= hs.len(),
    ensures
        boundary_from(hs, lvl, i) < hs.len() ==> boundary_from(hs.push(h), lvl, i)
            == boundary_from(hs, lvl, i),
        boundary_from(hs, lvl, i) == hs.len() && h.0 <= lvl ==> boundary_from(
            hs.push(h),
            lvl,
            i,
        ) == hs.len(),
        boundary_from(hs, lvl, i) == hs.len() && h.0 > lvl ==> boundary_from(
            hs.push(h),
            lvl,
            i,
        ) == hs.len() + 1,
    decreases hs.len() - i + 1,
{
    let s2 = hs.push(h);
    if i < hs.len() {
        if hs[i].0 > lvl {
            lemma_boundary_push(hs, h, lvl, i + 1);
        }
    } else {
        assert(s2[i] == h);
        if h.0 > lvl {
            assert(boundary_from(s2, lvl, i + 1) == s2.len());
        }
    }
}

/// The tree that a stack of open nodes will close into: each stack entry
/// becomes the last child of the one below it.
pub open spec fn nest(spine: Seq<Node>) -> Node
    decreases spine.len(),
{
    if spine.len() <= 1 {
        spine[0]
    } else {
        Node {
            level: spine[0].level,
            title: spine[0].title,
            children: spine[0].children.push(nest(spine.drop_first())),
        }
    }
}

/// The forest that the builder's state will end in: the finished trees, then
/// the closed stack, if any.
pub open spec fn close(result: Seq<Node>, stack: Seq<Node>) -> Seq<Node> {
    if stack.len() == 0 {
        result
    } else {
        result.push(nest(stack))
    }
}

/// `h` attached inside the node `n`.
pub open spec fn attach_node(n: Node, h: (u8, Seq<u8>)) -> Node {
    Node { level: n.level, title: n.title, children: attach(n.children, h) }
}

proof fn lemma_nest_level(spine: Seq<Node>)
    requires
        spine.len() >= 1,
    ensures
        nest(spine).level == spine[0].level,
        nest(spine).title == spine[0].title,
{
}

/// Popping the top of the stack into its parent leaves the closed tree alone.
proof fn lemma_nest_pop(spine: Seq<Node>)
    requires
        spine.len() >= 2,
    ensures
        nest(spine) == nest(
            spine.drop_last().update(
                spine.len() - 2,
                Node {
                    level: spine[spine.len() - 2].level,
                    title: spine[spine.len() - 2].title,
                    children: spine[spine.len() - 2].children.push(spine.last()),
                },
            ),
        ),
    decreases spine.len(),
{
    let popped = spine.drop_last().update(
        spine.len() - 2,
        Node {
            level: spine[spine.len() - 2].level,
            title: spine[spine.len() - 2].title,
            children: spine[spine.len() - 2].children.push(spine.last()),
        },
    );
    if spine.len() == 2 {
        assert(nest(spine.drop_first()) == spine[1]);
        assert(popped =~= seq![
            Node {
                level: spine[0].level,
                title: spine[0].title,
                children: spine[0].children.push(spine[1]),
            },
        ]);
    } else {
        let rest = spine.drop_first();
        lemma_nest_pop(rest);
        let rest_popped = rest.drop_last().update(
            rest.len() - 2,
            Node {
                level: rest[rest.len() - 2].level,
                title: rest[rest.len() - 2].title,
                children: rest[rest.len() - 2].children.push(rest.last()),
            },
        );
        assert(popped.drop_first() =~= rest_popped);
        assert(popped[0] == spine[0]);
        assert(popped.len() >= 2);
    }
}

/// Attaching a strictly deeper heading inside the closed stack is pushing a
/// fresh node onto the stack, as long as nothing to the right of the stack's
/// top is shallower than the heading.
proof fn lemma_attach_nest(spine: Seq<Node>, h: (u8, Seq<u8>))
    requires
        spine.len() >= 1,
        forall|i: int, j: int|
            0 <= i < j < spine.len() ==> (#[trigger] spine[i]).level < (#[trigger] spine[j]).level,
        spine.last().level < h.0,
        spine.last().children.len() == 0 || spine.last().children.last().level >= h.0,
    ensures
        attach_node(nest(spine), h) == nest(spine.push(leaf(h))),
    decreases spine.len(),
{
    if spine.len() == 1 {
        let t = spine[0];
        assert(nest(spine) == t);
        if t.children.len() == 0 {
            assert(attach(t.children, h) =~= t.children.push(leaf(h)));
        }
        let sp2 = spine.push(leaf(h));
        assert(sp2.drop_first() =~= seq![leaf(h)]);
        assert(nest(sp2.drop_first()) == leaf(h));
        assert(nest(sp2) == Node { level: t.level, title: t.title, children: t.children.push(leaf(h)) });
    } else {
        let rest = spine.drop_first();
        assert(rest.last() == spine.last());
        assert(forall|i: int, j: int|
            0 <= i < j < rest.len() ==> (#[trigger] rest[i]).level < (#[trigger] rest[j]).level) by {
            assert(forall|i: int| 0 <= i < rest.len() ==> rest[i] == spine[i + 1]);
        }
        lemma_attach_nest(rest, h);
        lemma_nest_level(rest);
        assert(rest[0] == spine[1]);
        assert(spine[1].level < h.0) by {
            if rest.len() == 1 {
            } else {
                assert(spine[1].level < spine.last().level);
            }
        }
        let c = spine[0].children;
        let inner = nest(rest);
        assert(nest(spine) == Node { level: spine[0].level, title: spine[0].title, children: c.push(inner) });
        let pushed = c.push(inner);
        assert(pushed.last() == inner);
        assert(inner.level < h.0);
        assert(attach(pushed, h) =~= c.push(attach_node(inner, h)));
        let sp2 = spine.push(leaf(h));
        assert(sp2.drop_first() =~= rest.push(leaf(h)));
        assert(nest(sp2) == Node {
            level: spine[0].level,
            title: spine[0].title,
            children: c.push(nest(rest.push(leaf(h)))),
        });
    }
}

/// Attaching a heading to the closed state is pushing a fresh node onto the
/// stack, under the builder's loop conditions.
proof fn lemma_attach_close(result: Seq<Node>, stack: Seq<Node>, h: (u8, Seq<u8>))
    requires
        stack.len() == 0 ==> result.len() == 0 || result.last().level >= h.0,
        stack.len() > 0 ==> forall|i: int, j: int|
            0 <= i < j < stack.len() ==> (#[trigger] stack[i]).level < (#[trigger] stack[j]).level,
        stack.len() > 0 ==> stack.last().level < h.0,
        stack.len() > 0 ==> stack.last().children.len() == 0 || stack.last().children.last().level
            >= h.0,
    ensures
        attach(close(result, stack), h) == close(result, stack.push(leaf(h))),
{
    if stack.len() == 0 {
        assert(stack.push(leaf(h)).len() == 1);
        assert(nest(stack.push(leaf(h))) == leaf(h));
        if result.len() == 0 {
            assert(attach(result, h) =~= result.push(leaf(h)));
        }
    } else {
        let closed = result.push(nest(stack));
        lemma_nest_level(stack);
        assert(closed.last() == nest(stack));
        assert(stack[0].level < h.0) by {
            if stack.len() > 1 {
                assert(stack[0].level < stack.last().level);
            }
        }
        lemma_attach_nest(stack, h);
        assert(attach(closed, h) =~= result.push(attach_node(nest(stack), h)));
    }
}

/// The headings of a forest, in document order.
pub open spec fn flatten_forest(f: Seq<Node>) -> Seq<(u8, Seq<u8>)>
    decreases f, f.len(),
{
    if f.len() == 0 {
        Seq::empty()
    } else {
        seq![(f[0].level, f[0].title)] + flatten_forest(f[0].children) + flatten_forest(
            f.drop_first(),
        )
    }
}

proof fn lemma_flatten_concat(f1: Seq<Node>, f2: Seq<Node>)
    ensures
        flatten_forest(f1 + f2) == flatten_forest(f1) + flatten_forest(f2),
    decreases f1.len(),
{
    if f1.len() == 0 {
        assert(f1 + f2 =~= f2);
        assert(flatten_forest(f1) =~= Seq::<(u8, Seq<u8>)>::empty());
        assert(flatten_forest(f1) + flatten_forest(f2) =~= flatten_forest(f2));
    } else {
        let f = f1 + f2;
        assert(f[0] == f1[0]);
        assert(f.drop_first() =~= f1.drop_first() + f2);
        lemma_flatten_concat(f1.drop_first(), f2);
        assert(flatten_forest(f) =~= flatten_forest(f1) + flatten_forest(f2));
    }
}

/// The outline keeps every heading, in document order: flattening the built
/// forest gives back the flat heading sequence. In particular the builder
/// drops nothing and reorders nothing.
pub proof fn lemma_outline_flatten(hs: Seq<(u8, Seq<u8>)>)
    ensures
        flatten_forest(outline_of(hs)) == hs,
    decreases hs.len(),
{
    if hs.len() == 0 {
        lemma_outline_empty();
    } else {
        let b = boundary_from(hs, hs[0].0, 1);
        lemma_boundary_from(hs, hs[0].0, 1);
        let n0 = Node { level: hs[0].0, title: hs[0].1, children: outline_of(hs.subrange(1, b)) };
        lemma_outline_flatten(hs.subrange(1, b));
        lemma_outline_flatten(hs.skip(b));
        lemma_flatten_concat(seq![n0], outline_of(hs.skip(b)));
        assert(flatten_forest(seq![n0]) =~= seq![(hs[0].0, hs[0].1)] + flatten_forest(
            n0.children,
        )) by {
            assert(seq![n0].drop_first() =~= Seq::<Node>::empty());
            assert(flatten_forest(Seq::<Node>::empty()) =~= Seq::<(u8, Seq<u8>)>::empty());
            assert((seq![(n0.level, n0.title)] + flatten_forest(n0.children)) + Seq::<(
                u8,
                Seq<u8>,
            )>::empty() =~= seq![(n0.level, n0.title)] + flatten_forest(n0.children));
        }
        assert(flatten_forest(outline_of(hs)) =~= hs) by {
            assert(flatten_forest(outline_of(hs)) == seq![(hs[0].0, hs[0].1)] + hs.subrange(1, b)
                + hs.skip(b));
        }
    }
}

/// Building an outline, flattening it, and building again gives the same
/// outline: outline building is idempotent across its own flat form.
pub proof fn lemma_outline_idempotent(hs: Seq<(u8, Seq<u8>)>)
    ensures
        outline_of(flatten_forest(outline_of(hs))) == outline_of(hs),
{
    lemma_outline_flatten(hs);
}

/// Every node of the forest has only strictly deeper nodes below it.
pub open spec fn nodes_well_nested(f: Seq<Node>) -> bool
    decreases f, f.len(),
{
    if f.len() == 0 {
        true
    } else {
        (forall|k: int|
            0 <= k < f[0].children.len() ==> (#[trigger] f[0].children[k]).level > f[0].level)
            && nodes_well_nested(f[0].children) && nodes_well_nested(f.drop_first())
    }
}

proof fn lemma_outline_level_bound(hs: Seq<(u8, Seq<u8>)>, bound: u8)
    requires
        forall|j: int| 0 <= j < hs.len() ==> (#[trigger] hs[j]).0 > bound,
    ensures
        forall|i: int|
            0 <= i < outline_of(hs).len() ==> (#[trigger] outline_of(hs)[i]).level > bound,
    decreases hs.len(),
{
    if hs.len() > 0 {
        let b = boundary_from(hs, hs[0].0, 1);
        lemma_boundary_from(hs, hs[0].0, 1);
        assert(forall|j: int|
            0 <= j < hs.skip(b).len() ==> (#[trigger] hs.skip(b)[j]).0 > bound);
        lemma_outline_level_bound(hs.skip(b), bound);
        assert forall|i: int|
            0 <= i < outline_of(hs).len() implies (#[trigger] outline_of(hs)[i]).level
            > bound by {
            if i > 0 {
                assert(outline_of(hs)[i] == outline_of(hs.skip(b))[i - 1]);
            }
        }
    }
}

/// The outline keeps levels nested: every node's children, and everything
/// below them, carry a strictly greater level than the node itself. This is
/// the outline node invariant of the data model.
pub proof fn lemma_outline_well_nested(hs: Seq<(u8, Seq<u8>)>)
    ensures
        nodes_well_nested(outline_of(hs)),
    decreases hs.len(),
{
    if hs.len() > 0 {
        let lvl = hs[0].0;
        let b = boundary_from(hs, lvl, 1);
        lemma_boundary_from(hs, lvl, 1);
        let sub = hs.subrange(1, b);
        assert(forall|j: int| 0 <= j < sub.len() ==> (#[trigger] sub[j]).0 > lvl);
        lemma_outline_level_bound(sub, lvl);
        lemma_outline_well_nested(sub);
        lemma_outline_well_nested(hs.skip(b));
        let f = outline_of(hs);
        let n0 = Node { level: lvl, title: hs[0].1, children: outline_of(sub) };
        assert(f[0] == n0);
        assert(f.drop_first() =~= outline_of(hs.skip(b)));
    }
}

/// Pops the top of the stack and attaches it: to the node below it, or to the
/// finished forest when the stack empties. The closed state does not change.
fn pop_attach(result: &mut Vec<TocEntry>, stack: &mut Vec<TocEntry>)
    requires
        old(stack)@.len() > 0,
    ensures
        final(stack)@.len() == old(stack)@.len() - 1,
        close(forest_view(*final(result)), forest_view(*final(stack))) == close(
            forest_view(*old(result)),
            forest_view(*old(stack)),
        ),
        old(stack)@.len() == 1 ==> final(result)@ == old(result)@.push(old(stack)@[0]),
        old(stack)@.len() > 1 ==> final(result)@ == old(result)@,
        forall|i: int|
            0 <= i < final(stack)@.len() ==> (#[trigger] final(stack)@[i]).level
                == old(stack)@[i].level,
        forall|i: int|
            0 <= i < final(stack)@.len() - 1 ==> entry_view(#[trigger] final(stack)@[i])
                == entry_view(old(stack)@[i]),
        final(stack)@.len() > 0 ==> final(stack)@.last().children@.len() > 0
            && final(stack)@.last().children@.last().level == old(stack)@.last().level,
{
    let ghost spine = forest_view(*old(stack));
    proof {
        lemma_forest_view(*old(stack));
    }
    let p = stack.pop().unwrap();
    if stack.len() == 0 {
        let ghost old_res = forest_view(*old(result));
        result.push(p);
        proof {
            lemma_forest_view(*result);
            lemma_forest_view(*old(result));
            assert(spine =~= seq![entry_view(p)]);
            assert(nest(spine) == entry_view(p));
            assert(forest_view(*result) =~= old_res.push(entry_view(p)));
        }
    } else {
        let mut q = stack.pop().unwrap();
        let ghost q0 = q;
        q.children.push(p);
        let ghost q1 = q;
        stack.push(q);
        proof {
            let n = spine.len();
            assert(n >= 2);
            lemma_nest_pop(spine);
            lemma_forest_view(q1.children);
            lemma_forest_view(q0.children);
            assert(q1.children@ == q0.children@.push(p));
            assert(forest_view(q1.children) =~= forest_view(q0.children).push(entry_view(p)));
            assert(entry_view(q1) == Node {
                level: q0.level,
                title: q0.title@,
                children: entry_view(q0).children.push(entry_view(p)),
            });
            let spine2 = spine.drop_last().update(
                n - 2,
                Node {
                    level: spine[n - 2].level,
                    title: spine[n - 2].title,
                    children: spine[n - 2].children.push(spine.last()),
                },
            );
            lemma_forest_view(*stack);
            assert(spine[n - 2] == entry_view(q0));
            assert(spine.last() == entry_view(p));
            assert(forest_view(*stack) =~= spine2);
        }
    }
}

/// Builds the nested outline forest from the flat heading entries with a
/// stack of open nodes and an attach-on-pop rule: each incoming heading
/// closes every open node at its level or deeper, then opens a new node.
/// The result is exactly `outline_of` the flat (level, title) sequence.
#[verifier::loop_isolation(false)]
pub fn build_toc_hierarchy(entries: Vec<TocEntry>) -> (r: Vec<TocEntry>)
    requires
        forall|i: int| 0 <= i < entries@.len() ==> (#[trigger] entries@[i]).children@.len() == 0,
    ensures
        forest_view(r) == outline_of(entries@.map_values(|e: TocEntry| (e.level, e.title@))),
{
    let ghost entries0 = entries@;
    let ghost pairs = entries0.map_values(|e: TocEntry| (e.level, e.title@));
    let mut rest = entries;
    let mut result: Vec<TocEntry> = Vec::new();
    let mut stack: Vec<TocEntry> = Vec::new();
    proof {
        lemma_outline_empty();
        assert(pairs.take(0) =~= Seq::<(u8, Seq<u8>)>::empty());
        assert(forest_view(result) =~= Seq::<Node>::empty());
        assert(forest_view(stack) =~= Seq::<Node>::empty());
    }
    while rest.len() > 0
        invariant
            rest@.len() <= entries0.len(),
            rest@ == entries0.skip(entries0.len() - rest@.len()),
            close(forest_view(result), forest_view(stack)) == outline_of(
                pairs.take(entries0.len() - rest@.len()),
            ),
            forall|i: int, j: int|
                0 <= i < j < stack@.len() ==> (#[trigger] stack@[i]).level < (
                #[trigger] stack@[j]).level,
            stack@.len() > 0 ==> stack@.last().children@.len() == 0,
            stack@.len() == 0 ==> result@.len() == 0,
        decreases rest@.len(),
    {
        let ghost k = entries0.len() - rest@.len();
        let e = rest.remove(0);
        let ghost h = (e.level, e.title@);
        proof {
            assert(entries0[k as int] == e);
            assert(pairs[k as int] == h);
            assert(pairs.take(k + 1) =~= pairs.take(k as int).push(h));
            lemma_outline_snoc(pairs.take(k as int), h);
            assert(rest@ =~= entries0.skip(k + 1));
        }
        let ghost close0 = close(forest_view(result), forest_view(stack));
        while stack.len() > 0 && stack[stack.len() - 1].level >= e.level
            invariant
                close(forest_view(result), forest_view(stack)) == close0,
                forall|i: int, j: int|
                    0 <= i < j < stack@.len() ==> (#[trigger] stack@[i]).level < (
                    #[trigger] stack@[j]).level,
                stack@.len() == 0 ==> result@.len() == 0 || result@.last().level >= e.level,
                stack@.len() > 0 ==> stack@.last().children@.len() == 0 || stack@.last().children@.last().level >= e.level,
            decreases stack@.len(),
        {
            let ghost st0 = stack@;
            pop_attach(&mut result, &mut stack);
            proof {
                if st0.len() == 1 {
                    assert(result@.last() == st0[0]);
                }
            }
        }
        proof {
            lemma_forest_view(stack);
            lemma_forest_view(result);
            let fvs = forest_view(stack);
            let fvr = forest_view(result);
            if stack@.len() > 0 {
                lemma_forest_view(stack@.last().children);
            }
            lemma_attach_close(fvr, fvs, h);
        }
        let node = TocEntry { level: e.level, title: e.title, children: Vec::new() };
        let ghost pre_stack = stack;
        stack.push(node);
        proof {
            assert(entry_view(node) == leaf(h)) by {
                assert(forest_view_from(node.children, 0) =~= Seq::<Node>::empty());
            }
            lemma_forest_view(stack);
            lemma_forest_view(pre_stack);
            assert(forest_view(stack) =~= forest_view(pre_stack).push(leaf(h)));
        }
    }
    proof {
        assert(pairs.take(entries0.len() as int) =~= pairs);
    }
    while stack.len() > 0
        invariant
            close(forest_view(result), forest_view(stack)) == outline_of(pairs),
        decreases stack@.len(),
    {
        pop_attach(&mut result, &mut stack);
    }
    result
}

} // verus!
