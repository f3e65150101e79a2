//! Frame-completion delivery over subsurface trees.
//!
//! Once per composited frame, after its redraw check, the external renderer
//! asks for the frame callbacks of everything it is about to present.  The
//! traversal is depth-first over the subsurface tree, children before their
//! parent and siblings in attachment order; every descendant is visited
//! even when an intermediate surface has nothing queued, since callbacks
//! belong to the surface node they were requested on.  Each queued callback
//! is handed out exactly once, with the renderer's timestamp, and the
//! caller owes each one to its client.

use vstd::prelude::*;

verus! {

use crate::comp::{
    arena_tree_ok, child_link_ok, lemma_wf_preserved_pointwise, node_children_ok, tree_eq,
    Application, MAX_NESTING,
};
use crate::types::{FrameDone, Surface};

/// The callbacks a slot itself holds deliverable.
pub open spec fn own_cbs(slot: Option<Surface>) -> Seq<u64> {
    match slot {
        Some(s) => s.queued_callbacks@,
        None => Seq::empty(),
    }
}

/// Every listed surface exists at depth `d`.
pub open spec fn list_ok(arena: Seq<Option<Surface>>, ids: Seq<usize>, d: nat) -> bool {
    forall|k: int|
        0 <= k < ids.len() ==> {
            &&& ((#[trigger] ids[k]) as int) < arena.len()
            &&& arena[ids[k] as int] is Some
            &&& arena[ids[k] as int]->0.depth == d
        }
}

/// The child list of a surface.
pub open spec fn kids_of(arena: Seq<Option<Surface>>, id: usize) -> Seq<usize> {
    arena[id as int]->0.children@
}

/// The delivery order of a sibling list at depth `d`: for each surface in
/// list order, first the callbacks of its subsurface subtree, then its
/// own, each surface's callbacks in their queued order.
pub open spec fn deliv_order(arena: Seq<Option<Surface>>, ids: Seq<usize>, d: nat) -> Seq<u64>
    decreases MAX_NESTING + 1 - d, ids.len(),
        when d <= MAX_NESTING + 1 && arena_tree_ok(arena) && list_ok(arena, ids, d)
{
    if ids.len() == 0 {
        Seq::empty()
    } else {
        deliv_order(arena, kids_of(arena, ids[0]), (d + 1) as nat) + own_cbs(arena[ids[0] as int])
            + deliv_order(arena, ids.drop_first(), d)
    }
}

/// The surfaces a traversal of a sibling list visits, in visit order:
/// each surface's subtree first, then the surface itself.
pub open spec fn subtree_list(arena: Seq<Option<Surface>>, ids: Seq<usize>, d: nat) -> Seq<usize>
    decreases MAX_NESTING + 1 - d, ids.len(),
        when d <= MAX_NESTING + 1 && arena_tree_ok(arena) && list_ok(arena, ids, d)
{
    if ids.len() == 0 {
        Seq::empty()
    } else {
        subtree_list(arena, kids_of(arena, ids[0]), (d + 1) as nat) + seq![ids[0]] + subtree_list(
            arena,
            ids.drop_first(),
            d,
        )
    }
}

/// Traversal and delivery split over concatenated sibling lists.
pub proof fn lemma_split_concat(arena: Seq<Option<Surface>>, a: Seq<usize>, b: Seq<usize>, d: nat)
    requires
        arena_tree_ok(arena),
        d <= MAX_NESTING + 1,
        list_ok(arena, a, d),
        list_ok(arena, b, d),
    ensures
        deliv_order(arena, a + b, d) == deliv_order(arena, a, d) + deliv_order(arena, b, d),
        subtree_list(arena, a + b, d) == subtree_list(arena, a, d) + subtree_list(arena, b, d),
    decreases a.len(),
{
    assert(list_ok(arena, a + b, d));
    if a.len() == 0 {
        assert(a + b =~= b);
        assert(deliv_order(arena, a, d) =~= Seq::<u64>::empty());
        assert(subtree_list(arena, a, d) =~= Seq::<usize>::empty());
        assert(deliv_order(arena, a, d) + deliv_order(arena, b, d) =~= deliv_order(arena, b, d));
        assert(subtree_list(arena, a, d) + subtree_list(arena, b, d) =~= subtree_list(
            arena,
            b,
            d,
        ));
    } else {
        assert((a + b)[0] == a[0]);
        assert((a + b).drop_first() =~= a.drop_first() + b);
        assert(list_ok(arena, a.drop_first(), d));
        lemma_split_concat(arena, a.drop_first(), b, d);
        assert(deliv_order(arena, a + b, d) == deliv_order(arena, kids_of(arena, a[0]), (d + 1) as nat)
            + own_cbs(arena[a[0] as int]) + (deliv_order(arena, a.drop_first(), d) + deliv_order(
            arena,
            b,
            d,
        )));
        assert(deliv_order(arena, kids_of(arena, a[0]), (d + 1) as nat) + own_cbs(
            arena[a[0] as int],
        ) + (deliv_order(arena, a.drop_first(), d) + deliv_order(arena, b, d)) =~= (deliv_order(
            arena,
            kids_of(arena, a[0]),
            (d + 1) as nat,
        ) + own_cbs(arena[a[0] as int]) + deliv_order(arena, a.drop_first(), d)) + deliv_order(
            arena,
            b,
            d,
        ));
        assert(subtree_list(arena, a + b, d) == subtree_list(
            arena,
            kids_of(arena, a[0]),
            (d + 1) as nat,
        ) + seq![a[0]] + (subtree_list(arena, a.drop_first(), d) + subtree_list(arena, b, d)));
        assert(subtree_list(arena, kids_of(arena, a[0]), (d + 1) as nat) + seq![a[0]] + (
        subtree_list(arena, a.drop_first(), d) + subtree_list(arena, b, d)) =~= (subtree_list(
            arena,
            kids_of(arena, a[0]),
            (d + 1) as nat,
        ) + seq![a[0]] + subtree_list(arena, a.drop_first(), d)) + subtree_list(arena, b, d));
    }
}

/// Every surface a traversal visits exists in the table.
pub proof fn lemma_subtree_members(arena: Seq<Option<Surface>>, ids: Seq<usize>, d: nat)
    requires
        arena_tree_ok(arena),
        d <= MAX_NESTING + 1,
        list_ok(arena, ids, d),
    ensures
        forall|x: usize|
            #[trigger] subtree_list(arena, ids, d).contains(x) ==> (x as int) < arena.len()
                && arena[x as int] is Some,
    decreases MAX_NESTING + 1 - d, ids.len(),
{
    if ids.len() == 0 {
    } else {
        let head_kids = subtree_list(arena, kids_of(arena, ids[0]), (d + 1) as nat);
        let rest = subtree_list(arena, ids.drop_first(), d);
        assert(list_ok(arena, kids_of(arena, ids[0]), (d + 1) as nat)) by {
            assert(node_children_ok(arena, ids[0] as int));
        }
        lemma_subtree_members(arena, kids_of(arena, ids[0]), (d + 1) as nat);
        assert(list_ok(arena, ids.drop_first(), d));
        lemma_subtree_members(arena, ids.drop_first(), d);
        assert forall|x: usize| #[trigger]
            subtree_list(arena, ids, d).contains(x) implies (x as int) < arena.len()
            && arena[x as int] is Some by {
            let whole = subtree_list(arena, ids, d);
            let j = choose|j: int| 0 <= j < whole.len() && whole[j] == x;
            if j < head_kids.len() {
                assert(head_kids[j] == x);
                assert(head_kids.contains(x));
            } else if j == head_kids.len() {
                assert(x == ids[0]);
            } else {
                assert(rest[j - head_kids.len() - 1] == x);
                assert(rest.contains(x));
            }
        }
    }
}

/// A traversal of surfaces that all hold nothing deliverable delivers
/// nothing.
pub proof fn lemma_deliv_of_drained(arena: Seq<Option<Surface>>, ids: Seq<usize>, d: nat)
    requires
        arena_tree_ok(arena),
        d <= MAX_NESTING + 1,
        list_ok(arena, ids, d),
        forall|x: usize|
            #[trigger] subtree_list(arena, ids, d).contains(x) ==> own_cbs(
                arena[x as int],
            ).len() == 0,
    ensures
        deliv_order(arena, ids, d).len() == 0,
    decreases MAX_NESTING + 1 - d, ids.len(),
{
    if ids.len() == 0 {
    } else {
        let head_kids = subtree_list(arena, kids_of(arena, ids[0]), (d + 1) as nat);
        let rest = subtree_list(arena, ids.drop_first(), d);
        let whole = subtree_list(arena, ids, d);
        assert(list_ok(arena, kids_of(arena, ids[0]), (d + 1) as nat)) by {
            assert(node_children_ok(arena, ids[0] as int));
        }
        assert(list_ok(arena, ids.drop_first(), d));
        assert forall|x: usize| #[trigger]
            head_kids.contains(x) implies own_cbs(arena[x as int]).len() == 0 by {
            let j = choose|j: int| 0 <= j < head_kids.len() && head_kids[j] == x;
            assert(whole[j] == x);
            assert(whole.contains(x));
        }
        assert forall|x: usize| #[trigger] rest.contains(x) implies own_cbs(arena[x as int]).len()
            == 0 by {
            let j = choose|j: int| 0 <= j < rest.len() && rest[j] == x;
            assert(whole[head_kids.len() + 1 + j] == x);
            assert(whole.contains(x));
        }
        assert(own_cbs(arena[ids[0] as int]).len() == 0) by {
            assert(whole[head_kids.len() as int] == ids[0]);
            assert(whole.contains(ids[0]));
        }
        lemma_deliv_of_drained(arena, kids_of(arena, ids[0]), (d + 1) as nat);
        lemma_deliv_of_drained(arena, ids.drop_first(), d);
    }
}

/// Two surface tables of one shape: the same slots are filled, and filled
/// slots agree on owner, parent link, child list and depth.
pub open spec fn arena_shape_eq(a1: Seq<Option<Surface>>, a2: Seq<Option<Surface>>) -> bool {
    &&& a1.len() == a2.len()
    &&& forall|i: int|
        0 <= i < a1.len() ==> {
            &&& (#[trigger] a1[i] is Some <==> a2[i] is Some)
            &&& (a1[i] is Some ==> tree_eq(a2[i]->0, a1[i]->0))
        }
}

/// Tree consistency carries over to a table of the same shape.
pub proof fn lemma_tree_ok_congruent(a1: Seq<Option<Surface>>, a2: Seq<Option<Surface>>)
    requires
        arena_tree_ok(a1),
        arena_shape_eq(a1, a2),
    ensures
        arena_tree_ok(a2),
{
    assert forall|i: int|
        0 <= i < a2.len() && #[trigger] a2[i] is Some implies node_children_ok(a2, i) by {
        assert(a1[i] is Some);
        assert(node_children_ok(a1, i));
        let s = a2[i]->0;
        assert(tree_eq(s, a1[i]->0));
        assert forall|k: int|
            0 <= k < s.children@.len()
                implies child_link_ok(a2, i, #[trigger] s.children@[k]) by {
            assert(child_link_ok(a1, i, s.children@[k]));
            let c = s.children@[k];
            assert(tree_eq(a2[c as int]->0, a1[c as int]->0));
        }
    }
}

/// A traversal visits the same surfaces in the same order on any table of
/// the same shape.
pub proof fn lemma_subtree_congruent(
    a1: Seq<Option<Surface>>,
    a2: Seq<Option<Surface>>,
    ids: Seq<usize>,
    d: nat,
)
    requires
        arena_tree_ok(a1),
        arena_shape_eq(a1, a2),
        d <= MAX_NESTING + 1,
        list_ok(a1, ids, d),
    ensures
        list_ok(a2, ids, d),
        subtree_list(a2, ids, d) == subtree_list(a1, ids, d),
    decreases MAX_NESTING + 1 - d, ids.len(),
{
    lemma_tree_ok_congruent(a1, a2);
    assert(list_ok(a2, ids, d)) by {
        assert forall|k: int| 0 <= k < ids.len() implies ((#[trigger] ids[k]) as int) < a2.len()
            && a2[ids[k] as int] is Some && a2[ids[k] as int]->0.depth == d by {
            assert(tree_eq(a2[ids[k] as int]->0, a1[ids[k] as int]->0));
        }
    }
    if ids.len() == 0 {
    } else {
        assert(list_ok(a1, kids_of(a1, ids[0]), (d + 1) as nat)) by {
            assert(node_children_ok(a1, ids[0] as int));
        }
        assert(kids_of(a2, ids[0]) == kids_of(a1, ids[0])) by {
            assert(tree_eq(a2[ids[0] as int]->0, a1[ids[0] as int]->0));
        }
        assert(list_ok(a1, ids.drop_first(), d));
        lemma_subtree_congruent(a1, a2, kids_of(a1, ids[0]), (d + 1) as nat);
        lemma_subtree_congruent(a1, a2, ids.drop_first(), d);
    }
}

/// The slot kept everything but its deliverable callbacks, which are gone.
pub open spec fn drained_of(a: Surface, b: Surface) -> bool {
    &&& a.queued_callbacks@.len() == 0
    &&& tree_eq(a, b)
    &&& a.pending_buffer == b.pending_buffer
    &&& a.current_buffer == b.current_buffer
    &&& a.pending_callbacks@ == b.pending_callbacks@
    &&& a.committed == b.committed
    &&& a.dirty == b.dirty
}

/// What one delivery pass does.  For an existing root surface: the result
/// lists, in delivery order, one completion per queued callback of the
/// root's subtree, each carrying the pass's timestamp; exactly the visited
/// surfaces are drained of their queued callbacks, and nothing else
/// changes.  A handle referring to no surface — in particular a subsurface
/// never committed and so never registered — yields zero deliveries and no
/// change, not an error.
pub open spec fn frames_rel(
    pre: Application,
    post: Application,
    surface: usize,
    r: Seq<FrameDone>,
    time: u32,
) -> bool {
    &&& post.clients@ == pre.clients@
    &&& post.toplevels@ == pre.toplevels@
    &&& post.windows@ == pre.windows@
    &&& post.wayvr_tasks.items@ == pre.wayvr_tasks.items@
    &&& post.surfaces@.len() == pre.surfaces@.len()
    &&& if pre.surface_live(surface) {
        let d = pre.surface_at(surface).depth as nat;
        let order = deliv_order(pre.surfaces@, seq![surface], d);
        let members = subtree_list(pre.surfaces@, seq![surface], d);
        &&& r.len() == order.len()
        &&& (forall|k: int|
            0 <= k < r.len() ==> #[trigger] r[k] == (FrameDone { callback: order[k], time }))
        &&& (forall|i: int|
            0 <= i < pre.surfaces@.len() ==> {
                if members.contains(i as usize) {
                    &&& pre.surfaces@[i] is Some
                    &&& (#[trigger] post.surfaces@[i]) is Some
                    &&& drained_of(post.surfaces@[i]->0, pre.surfaces@[i]->0)
                } else {
                    post.surfaces@[i] == pre.surfaces@[i]
                }
            })
    } else {
        &&& r.len() == 0
        &&& post.surfaces@ == pre.surfaces@
    }
}

/// Collects, in visit order, the surfaces of `id`'s subtree and the
/// callbacks owed for them.
fn collect_rec(app: &Application, id: usize, out_ids: &mut Vec<usize>, out_cbs: &mut Vec<u64>)
    requires
        arena_tree_ok(app.surfaces@),
        app.surface_live(id),
    ensures
        final(out_ids)@ == old(out_ids)@ + subtree_list(
            app.surfaces@,
            seq![id],
            app.surface_at(id).depth as nat,
        ),
        final(out_cbs)@ == old(out_cbs)@ + deliv_order(
            app.surfaces@,
            seq![id],
            app.surface_at(id).depth as nat,
        ),
    decreases MAX_NESTING - app.surface_at(id).depth,
{
    let ghost arena = app.surfaces@;
    let ghost d = app.surface_at(id).depth as nat;
    proof {
        assert(node_children_ok(arena, id as int));
        assert(list_ok(arena, seq![id], d));
    }
    let s = match &app.surfaces[id] {
        Some(s) => s,
        None => {
            proof {
                assert(false);
            }
            return ;
        },
    };
    let ghost kids = s.children@;
    proof {
        assert(list_ok(arena, kids, (d + 1) as nat)) by {
            assert forall|k: int|
                0 <= k < kids.len() implies ((#[trigger] kids[k]) as int) < arena.len()
                && arena[kids[k] as int] is Some && arena[kids[k] as int]->0.depth == d + 1 by {
                assert(child_link_ok(arena, id as int, kids[k]));
            }
        }
        assert(kids.take(0) =~= Seq::<usize>::empty());
        assert(subtree_list(arena, kids.take(0), (d + 1) as nat) =~= Seq::<usize>::empty());
        assert(deliv_order(arena, kids.take(0), (d + 1) as nat) =~= Seq::<u64>::empty());
        assert(out_ids@ =~= old(out_ids)@ + subtree_list(arena, kids.take(0), (d + 1) as nat));
        assert(out_cbs@ =~= old(out_cbs)@ + deliv_order(arena, kids.take(0), (d + 1) as nat));
    }
    let mut k: usize = 0;
    while k < s.children.len()
        invariant
            arena_tree_ok(arena),
            app.surfaces@ == arena,
            (id as int) < arena.len(),
            arena[id as int] is Some,
            s == arena[id as int]->0,
            kids == s.children@,
            d == arena[id as int]->0.depth as nat,
            d + 1 <= MAX_NESTING + 1,
            list_ok(arena, kids, (d + 1) as nat),
            k <= kids.len(),
            out_ids@ == old(out_ids)@ + subtree_list(arena, kids.take(k as int), (d + 1) as nat),
            out_cbs@ == old(out_cbs)@ + deliv_order(arena, kids.take(k as int), (d + 1) as nat),
        decreases kids.len() - k,
    {
        let child = s.children[k];
        proof {
            assert(child_link_ok(arena, id as int, kids[k as int]));
            assert(node_children_ok(arena, child as int));
        }
        let ghost ids_before = out_ids@;
        let ghost cbs_before = out_cbs@;
        collect_rec(app, child, out_ids, out_cbs);
        proof {
            let singleton = seq![child];
            assert(list_ok(arena, singleton, (d + 1) as nat));
            assert(kids.take(k as int + 1) =~= kids.take(k as int) + singleton);
            lemma_split_concat(arena, kids.take(k as int), singleton, (d + 1) as nat);
            assert(out_ids@ =~= old(out_ids)@ + subtree_list(
                arena,
                kids.take(k as int + 1),
                (d + 1) as nat,
            ));
            assert(out_cbs@ =~= old(out_cbs)@ + deliv_order(
                arena,
                kids.take(k as int + 1),
                (d + 1) as nat,
            ));
        }
        k = k + 1;
    }
    proof {
        assert(kids.take(kids.len() as int) =~= kids);
    }
    let ghost cbs_mid = out_cbs@;
    let mut m: usize = 0;
    while m < s.queued_callbacks.len()
        invariant
            app.surfaces@ == arena,
            (id as int) < arena.len(),
            arena[id as int] is Some,
            s == arena[id as int]->0,
            m <= s.queued_callbacks@.len(),
            out_cbs@ == cbs_mid + s.queued_callbacks@.take(m as int),
        decreases s.queued_callbacks@.len() - m,
    {
        out_cbs.push(s.queued_callbacks[m]);
        proof {
            assert(s.queued_callbacks@.take(m as int + 1) =~= s.queued_callbacks@.take(
                m as int,
            ).push(s.queued_callbacks@[m as int]));
            assert(out_cbs@ =~= cbs_mid + s.queued_callbacks@.take(m as int + 1));
        }
        m = m + 1;
    }
    out_ids.push(id);
    proof {
        assert(s.queued_callbacks@.take(s.queued_callbacks@.len() as int) =~= s.queued_callbacks@);
        let sing = seq![id];
        assert(sing.drop_first() =~= Seq::<usize>::empty());
        assert(sing[0] == id);
        assert(deliv_order(arena, Seq::<usize>::empty(), d) =~= Seq::<u64>::empty());
        assert(subtree_list(arena, Seq::<usize>::empty(), d) =~= Seq::<usize>::empty());
        assert(deliv_order(arena, sing, d) == deliv_order(arena, kids, (d + 1) as nat) + own_cbs(
            arena[id as int],
        ) + deliv_order(arena, Seq::<usize>::empty(), d));
        assert(deliv_order(arena, sing, d) =~= deliv_order(arena, kids, (d + 1) as nat) + own_cbs(
            arena[id as int],
        ));
        assert(subtree_list(arena, sing, d) == subtree_list(arena, kids, (d + 1) as nat) + seq![id]
            + subtree_list(arena, Seq::<usize>::empty(), d));
        assert(subtree_list(arena, sing, d) =~= subtree_list(arena, kids, (d + 1) as nat) + seq![
            id,
        ]);
        assert(own_cbs(arena[id as int]) == s.queued_callbacks@);
        assert(out_cbs@ =~= old(out_cbs)@ + deliv_order(arena, sing, d));
        assert(out_ids@ =~= old(out_ids)@ + subtree_list(arena, sing, d));
    }
}

/// Delivers the pending frame-completion callbacks of `surface`'s whole
/// subsurface tree for one composited frame: see [`frames_rel`].  The
/// returned completions, in order, are owed to the clients; the queues
/// they came from are left empty, so no callback is ever handed out
/// twice.
pub fn send_frames_surface_tree(app: &mut Application, surface: usize, time: u32) -> (r: Vec<
    FrameDone,
>)
    requires
        old(app).wf(),
    ensures
        final(app).wf(),
        frames_rel(*old(app), *final(app), surface, r@, time),
{
    let ghost pre = *app;
    let live = surface < app.surfaces.len() && app.surfaces[surface].is_some();
    if !live {
        return Vec::new();
    }
    let ghost d = pre.surface_at(surface).depth as nat;
    let ghost members = subtree_list(pre.surfaces@, seq![surface], d);
    let mut ids: Vec<usize> = Vec::new();
    let mut cbs: Vec<u64> = Vec::new();
    collect_rec(app, surface, &mut ids, &mut cbs);
    proof {
        assert(ids@ =~= members);
        assert(list_ok(pre.surfaces@, seq![surface], d));
        lemma_subtree_members(pre.surfaces@, seq![surface], d);
    }
    let mut r: Vec<FrameDone> = Vec::new();
    let mut m: usize = 0;
    while m < cbs.len()
        invariant
            m <= cbs@.len(),
            r@.len() == m,
            forall|k: int|
                0 <= k < m ==> #[trigger] r@[k] == (FrameDone { callback: cbs@[k], time }),
        decreases cbs@.len() - m,
    {
        r.push(FrameDone { callback: cbs[m], time });
        m = m + 1;
    }
    let mut k: usize = 0;
    while k < ids.len()
        invariant
            pre.wf(),
            ids@ == members,
            forall|x: usize|
                #[trigger] members.contains(x) ==> (x as int) < pre.surfaces@.len()
                    && pre.surfaces@[x as int] is Some,
            k <= ids@.len(),
            app.clients@ == pre.clients@,
            app.toplevels@ == pre.toplevels@,
            app.windows@ == pre.windows@,
            app.wayvr_tasks.items@ == pre.wayvr_tasks.items@,
            app.surfaces@.len() == pre.surfaces@.len(),
            forall|i: int|
                0 <= i < pre.surfaces@.len() ==> {
                    if ids@.take(k as int).contains(i as usize) {
                        &&& pre.surfaces@[i] is Some
                        &&& (#[trigger] app.surfaces@[i]) is Some
                        &&& drained_of(app.surfaces@[i]->0, pre.surfaces@[i]->0)
                    } else {
                        app.surfaces@[i] == pre.surfaces@[i]
                    }
                },
        decreases ids@.len() - k,
    {
        let id = ids[k];
        proof {
            assert(ids@[k as int] == id);
            assert(members.contains(id));
            assert(pre.surfaces@.len() <= usize::MAX) by {
                assert(pre.surfaces.len() == pre.surfaces@.len());
            }
        }
        let slot = &mut app.surfaces[id];
        match slot {
            Some(s) => {
                s.queued_callbacks = Vec::new();
            },
            None => {},
        }
        proof {
            assert forall|i: int| 0 <= i < pre.surfaces@.len() implies {
                if ids@.take(k as int + 1).contains(i as usize) {
                    &&& pre.surfaces@[i] is Some
                    &&& (#[trigger] app.surfaces@[i]) is Some
                    &&& drained_of(app.surfaces@[i]->0, pre.surfaces@[i]->0)
                } else {
                    app.surfaces@[i] == pre.surfaces@[i]
                }
            } by {
                let shorter = ids@.take(k as int);
                let longer = ids@.take(k as int + 1);
                assert(longer =~= shorter.push(id));
                if longer.contains(i as usize) {
                    if i == id as int {
                    } else {
                        let j = choose|j: int| 0 <= j < longer.len() && longer[j] == i as usize;
                        assert(shorter[j] == i as usize);
                        assert(shorter.contains(i as usize));
                    }
                } else {
                    assert(!shorter.contains(i as usize)) by {
                        if shorter.contains(i as usize) {
                            let j = choose|j: int|
                                0 <= j < shorter.len() && shorter[j] == i as usize;
                            assert(longer[j] == i as usize);
                        }
                    }
                    assert(i != id as int) by {
                        if i == id as int {
                            assert(longer[shorter.len() as int] == id);
                            assert(longer.contains(id));
                        }
                    }
                }
            }
        }
        k = k + 1;
    }
    proof {
        assert(ids@.take(ids@.len() as int) =~= ids@);
        lemma_wf_preserved_pointwise(pre, *app);
    }
    r
}

/// A surface never committed holds no deliverable callbacks, so its own
/// contribution to any delivery pass is empty.
pub proof fn lemma_uncommitted_surface_has_no_callbacks(app: Application, surface: usize)
    requires
        app.wf(),
        app.surface_live(surface),
        !app.surface_at(surface).committed,
    ensures
        own_cbs(app.surfaces@[surface as int]).len() == 0,
{
    assert(app.surface_ok(surface as int));
}

/// A delivery pass hands each queued callback out exactly once: a second
/// pass over the same root, with nothing committed in between, delivers
/// nothing.
pub proof fn lemma_frames_delivered_once(
    s0: Application,
    s1: Application,
    s2: Application,
    surface: usize,
    r1: Seq<FrameDone>,
    r2: Seq<FrameDone>,
    t1: u32,
    t2: u32,
)
    requires
        s0.wf(),
        s1.wf(),
        frames_rel(s0, s1, surface, r1, t1),
        frames_rel(s1, s2, surface, r2, t2),
    ensures
        r2.len() == 0,
{
    if s0.surface_live(surface) {
        let d = s0.surface_at(surface).depth as nat;
        let members = subtree_list(s0.surfaces@, seq![surface], d);
        assert(list_ok(s0.surfaces@, seq![surface], d));
        lemma_subtree_members(s0.surfaces@, seq![surface], d);
        assert(arena_shape_eq(s0.surfaces@, s1.surfaces@)) by {
            assert forall|i: int| 0 <= i < s0.surfaces@.len() implies {
                &&& (#[trigger] s0.surfaces@[i] is Some <==> s1.surfaces@[i] is Some)
                &&& (s0.surfaces@[i] is Some ==> tree_eq(s1.surfaces@[i]->0, s0.surfaces@[i]->0))
            } by {
                if members.contains(i as usize) {
                } else {
                    assert(s1.surfaces@[i] == s0.surfaces@[i]);
                }
            }
        }
        lemma_subtree_congruent(s0.surfaces@, s1.surfaces@, seq![surface], d);
        lemma_tree_ok_congruent(s0.surfaces@, s1.surfaces@);
        assert(s1.surface_live(surface));
        assert(s1.surface_at(surface).depth == s0.surface_at(surface).depth) by {
            assert(tree_eq(s1.surfaces@[surface as int]->0, s0.surfaces@[surface as int]->0));
        }
        let members1 = subtree_list(s1.surfaces@, seq![surface], d);
        assert(members1 == members);
        assert forall|x: usize| #[trigger]
            members1.contains(x) implies own_cbs(s1.surfaces@[x as int]).len() == 0 by {
            assert(members.contains(x));
            assert((x as int) < s0.surfaces@.len() && s0.surfaces@[x as int] is Some);
            assert(drained_of(s1.surfaces@[x as int]->0, s0.surfaces@[x as int]->0));
        }
        lemma_deliv_of_drained(s1.surfaces@, seq![surface], d);
        assert(r2.len() == deliv_order(s1.surfaces@, seq![surface], d).len());
    }
}

/// A delivery pass over a subtree in which nothing was ever committed —
/// for example a tree of subsurfaces created and linked but not yet
/// committed — delivers nothing at all.
pub proof fn lemma_uncommitted_tree_delivers_nothing(app: Application, surface: usize)
    requires
        app.wf(),
        app.surface_live(surface),
        forall|x: usize|
            #[trigger] subtree_list(
                app.surfaces@,
                seq![surface],
                app.surface_at(surface).depth as nat,
            ).contains(x) ==> (x as int) < app.surfaces@.len() && app.surfaces@[x as int] is Some
                && !app.surfaces@[x as int]->0.committed,
    ensures
        deliv_order(app.surfaces@, seq![surface], app.surface_at(surface).depth as nat).len() == 0,
{
    let d = app.surface_at(surface).depth as nat;
    assert(list_ok(app.surfaces@, seq![surface], d));
    assert forall|x: usize| #[trigger]
        subtree_list(app.surfaces@, seq![surface], d).contains(x) implies own_cbs(
        app.surfaces@[x as int],
    ).len() == 0 by {
        assert(app.surface_ok(x as int));
    }
    lemma_deliv_of_drained(app.surfaces@, seq![surface], d);
}

} // verus!
