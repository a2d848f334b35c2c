use vstd::prelude::*;
use crate::error::Error;
use crate::pattern::{captures_view, default_pattern, regex_captures, regex_compiles, Pattern, DEFAULT_PATTERN};
use crate::text::{chars_of, decimal, decimal_string, replace_all, replace_all_chars, segments, split_path, string_of};
use crate::tree::{
    child_names, closed, entries_of, entry_keys, lemma_mirrors_frame, lemma_resolves_step,
    lemma_walk_frame, lookup, node_mirrors, node_value, resolves_to, unchanged_in, value_at, walk,
    VariableTree,
};
use crate::value::{
    display_text, entries_view, items_view, json_text, lemma_entries_view, lemma_items_view, JValue,
    JsonValue,
};

verus! {

broadcast use vstd::std_specs::vec::group_vec_axioms, vstd::seq::group_seq_axioms;

/// The number of nodes a tree needs for `v`: one for `v` and one for each part
/// of it, at every depth.
pub open spec fn node_count(v: JValue) -> nat
    decreases v,
{
    match v {
        JValue::Array(items) => 1 + items_count(items),
        JValue::Object(es) => 1 + entries_count(es),
        _ => 1,
    }
}

pub open spec fn items_count(s: Seq<JValue>) -> nat
    decreases s,
{
    if s.len() == 0 {
        0
    } else {
        items_count(s.drop_last()) + node_count(s.last())
    }
}

pub open spec fn entries_count(s: Seq<(Seq<char>, JValue)>) -> nat
    decreases s,
{
    if s.len() == 0 {
        0
    } else {
        entries_count(s.drop_last()) + node_count(s.last().1)
    }
}

/// The number of nodes a tree needs for `v`, where that number is below
/// `usize::MAX`.
#[verifier::loop_isolation(false)]
pub fn count_nodes(v: &JsonValue) -> (r: Option<usize>)
    ensures
        match r {
            Some(n) => n == node_count(v.view()) && n < usize::MAX,
            None => node_count(v.view()) >= usize::MAX,
        },
    decreases v,
{
    match v {
        JsonValue::Array(items) => {
            proof { lemma_items_view(items@); }
            let ghost iv = items_view(items@);
            let mut total: usize = 1;
            let mut i: usize = 0;
            assert(iv.subrange(0, 0).len() == 0);
            while i < items.len()
                invariant
                    i <= items.len(),
                    total == 1 + items_count(iv.subrange(0, i as int)),
                    total < usize::MAX,
                decreases items.len() - i,
            {
                proof {
                    assert(iv.subrange(0, i + 1).drop_last() =~= iv.subrange(0, i as int));
                    lemma_count_prefix_items(iv, i + 1);
                    assert(decreases_to!(v => items[i as int]));
                }
                match count_nodes(&items[i]) {
                    Some(c) => {
                        if c >= usize::MAX - total {
                            return None;
                        }
                        total = total + c;
                    },
                    None => {
                        return None;
                    },
                }
                i = i + 1;
            }
            assert(iv.subrange(0, items.len() as int) =~= iv);
            Some(total)
        },
        JsonValue::Object(entries) => {
            proof { lemma_entries_view(entries@); }
            let ghost ev = entries_view(entries@);
            let mut total: usize = 1;
            let mut i: usize = 0;
            assert(ev.subrange(0, 0).len() == 0);
            while i < entries.len()
                invariant
                    i <= entries.len(),
                    total == 1 + entries_count(ev.subrange(0, i as int)),
                    total < usize::MAX,
                decreases entries.len() - i,
            {
                proof {
                    assert(ev.subrange(0, i + 1).drop_last() =~= ev.subrange(0, i as int));
                    lemma_count_prefix_entries(ev, i + 1);
                    assert(decreases_to!(v => entries[i as int].1));
                }
                match count_nodes(&entries[i].1) {
                    Some(c) => {
                        if c >= usize::MAX - total {
                            return None;
                        }
                        total = total + c;
                    },
                    None => {
                        return None;
                    },
                }
                i = i + 1;
            }
            assert(ev.subrange(0, entries.len() as int) =~= ev);
            Some(total)
        },
        _ => Some(1),
    }
}

/// Appends a node named `key` for `v` under `parent`, and below it a node for
/// each part of `v`, at every depth.
fn insert_value(parent: usize, key: String, v: &JsonValue, tree: &mut VariableTree) -> (c: usize)
    requires
        old(tree).wf(),
        parent < old(tree).nodes@.len(),
        old(tree).nodes@.len() + node_count(v.view()) < usize::MAX,
    ensures
        final(tree).wf(),
        final(tree).root == old(tree).root,
        c == old(tree).nodes@.len(),
        final(tree).nodes@.len() == c + node_count(v.view()),
        final(tree).nodes@[c as int].variable@ == key@,
        final(tree).nodes@[c as int].value.view() == v.view(),
        forall|n: int| c <= n < final(tree).nodes@.len() ==> #[trigger] node_mirrors(final(tree).nodes@, n),
        old(tree).one_parent_each() ==> final(tree).one_parent_each(),
        resolves_to(final(tree).nodes@, c as int, v.view()),
        closed(final(tree).nodes@, c as int, final(tree).nodes@.len() as int),
        forall|i: int| 0 <= i < c && i != parent ==> #[trigger] final(tree).nodes@[i] == old(tree).nodes@[i],
        final(tree).nodes@[parent as int].variable == old(tree).nodes@[parent as int].variable,
        final(tree).nodes@[parent as int].value == old(tree).nodes@[parent as int].value,
        final(tree).nodes@[parent as int].children@ == old(tree).nodes@[parent as int].children@.push(c),
    decreases v, 1nat,
{
    let c = tree.add_child(parent, key, v.duplicate());
    insert_entries(c, v, tree);
    c
}

/// Appends below `parent`, any node of the tree, a node for each of the
/// `entries`, in order, named by its key, and below each a node for every part
/// of its value, at every depth. The parent's earlier children stay first.
#[verifier::loop_isolation(false)]
#[verifier::rlimit(50)]
fn insert_variables(parent: usize, entries: &Vec<(String, JsonValue)>, tree: &mut VariableTree)
    requires
        old(tree).wf(),
        parent < old(tree).nodes@.len(),
        old(tree).nodes@.len() + entries_count(entries_view(entries@)) < usize::MAX,
    ensures
        final(tree).wf(),
        final(tree).root == old(tree).root,
        final(tree).nodes@.len() == old(tree).nodes@.len() + entries_count(entries_view(entries@)),
        forall|i: int| 0 <= i < old(tree).nodes@.len() && i != parent ==> #[trigger] final(tree).nodes@[i] == old(tree).nodes@[i],
        final(tree).nodes@[parent as int].variable == old(tree).nodes@[parent as int].variable,
        final(tree).nodes@[parent as int].value == old(tree).nodes@[parent as int].value,
        ({
            let k0 = old(tree).nodes@[parent as int].children@.len() as int;
            let all = final(tree).nodes@[parent as int].children@;
            let kids = all.subrange(k0, all.len() as int);
            let ev = entries_view(entries@);
            &&& all.subrange(0, k0) == old(tree).nodes@[parent as int].children@
            &&& kids.len() == ev.len()
            &&& child_names(final(tree).nodes@, kids) == ev.map_values(|e: (Seq<char>, JValue)| e.0)
            &&& forall|j: int| 0 <= j < kids.len() ==> old(tree).nodes@.len() <= #[trigger] kids[j] < final(tree).nodes@.len()
                && final(tree).nodes@[kids[j] as int].value.view() == ev[j].1
                && resolves_to(final(tree).nodes@, kids[j] as int, ev[j].1)
        }),
        closed(final(tree).nodes@, old(tree).nodes@.len() as int, final(tree).nodes@.len() as int),
        forall|n: int| old(tree).nodes@.len() <= n < final(tree).nodes@.len() ==> #[trigger] node_mirrors(final(tree).nodes@, n),
        old(tree).one_parent_each() ==> final(tree).one_parent_each(),
    decreases entries, 0nat,
{
    proof { lemma_entries_view(entries@); }
    let ghost ev = entries_view(entries@);
    let ghost t0 = tree.nodes@;
    let ghost n0 = tree.nodes@.len() as int;
    let ghost k0 = tree.nodes@[parent as int].children@.len() as int;
    let ghost keys = ev.map_values(|e: (Seq<char>, JValue)| e.0);
    let mut k: usize = 0;
    assert(ev.subrange(0, 0).len() == 0);
    assert(tree.nodes@[parent as int].children@.subrange(0, k0) =~= t0[parent as int].children@);
    assert(child_names(tree.nodes@, tree.nodes@[parent as int].children@.subrange(k0, k0)) =~= keys.subrange(0, 0));
    while k < entries.len()
        invariant
            tree.wf(),
            tree.root == old(tree).root,
            k <= entries.len(),
            n0 == t0.len(),
            parent < n0,
            k0 == t0[parent as int].children@.len(),
            tree.nodes@.len() == n0 + entries_count(ev.subrange(0, k as int)),
            n0 + entries_count(ev) < usize::MAX,
            forall|i: int| 0 <= i < n0 && i != parent ==> #[trigger] tree.nodes@[i] == t0[i],
            tree.nodes@[parent as int].variable == t0[parent as int].variable,
            tree.nodes@[parent as int].value == t0[parent as int].value,
            tree.nodes@[parent as int].children@.len() == k0 + k,
            tree.nodes@[parent as int].children@.subrange(0, k0) == t0[parent as int].children@,
            child_names(tree.nodes@, tree.nodes@[parent as int].children@.subrange(k0, k0 + k)) == keys.subrange(0, k as int),
            forall|j: int| 0 <= j < k ==> n0 <= #[trigger] tree.nodes@[parent as int].children@[k0 + j] < tree.nodes@.len()
                && tree.nodes@[tree.nodes@[parent as int].children@[k0 + j] as int].value.view() == ev[j].1
                && resolves_to(tree.nodes@, tree.nodes@[parent as int].children@[k0 + j] as int, ev[j].1),
            closed(tree.nodes@, n0, tree.nodes@.len() as int),
            forall|n: int| n0 <= n < tree.nodes@.len() ==> #[trigger] node_mirrors(tree.nodes@, n),
            old(tree).one_parent_each() ==> tree.one_parent_each(),
        decreases entries.len() - k,
    {
        proof {
            assert(ev.subrange(0, k + 1).drop_last() =~= ev.subrange(0, k as int));
            assert(entries_count(ev.subrange(0, k as int)) + node_count(ev[k as int].1) <= entries_count(ev)) by {
                lemma_count_prefix_entries(ev, k + 1);
            }
            assert(decreases_to!(entries => entries[k as int].1));
        }
        let ghost before = tree.nodes@;
        let key = entries[k].0.clone();
        let c = insert_value(parent, key, &entries[k].1, tree);
        proof {
            let all = tree.nodes@[parent as int].children@;
            let ball = before[parent as int].children@;
            assert(all == ball.push(c));
            assert(unchanged_in(before, tree.nodes@, n0, c as int));
            assert(all.subrange(0, k0) =~= t0[parent as int].children@) by {
                assert(all.subrange(0, k0) =~= ball.subrange(0, k0));
            }
            assert forall|j: int| 0 <= j < k + 1 implies n0 <= #[trigger] all[k0 + j] < tree.nodes@.len()
                && tree.nodes@[all[k0 + j] as int].value.view() == ev[j].1
                && resolves_to(tree.nodes@, all[k0 + j] as int, ev[j].1) by {
                if j < k {
                    let n = all[k0 + j] as int;
                    assert(n == ball[k0 + j]);
                    assert(n0 <= ball[k0 + j] < before.len());
                    assert(resolves_to(before, n, ev[j].1));
                    assert(tree.nodes@[n] == before[n]);
                    assert forall|segs: Seq<Seq<char>>| #[trigger] node_value(tree.nodes@, walk(tree.nodes@, n, segs))
                        == value_at(ev[j].1, segs) by {
                        lemma_walk_frame(before, tree.nodes@, n0, c as int, n, segs);
                    }
                } else {
                    assert(all[k0 + j] == c);
                    assert(ev[j] == (entries@[j].0@, entries@[j].1.view()));
                }
            }
            assert(child_names(tree.nodes@, all.subrange(k0, k0 + k + 1)) =~= keys.subrange(0, k + 1)) by {
                assert forall|j: int| 0 <= j < k implies tree.nodes@[all[k0 + j] as int].variable@ == keys[j] by {
                    assert(child_names(before, ball.subrange(k0, k0 + k))[j] == keys[j]);
                    assert(ball.subrange(k0, k0 + k)[j] == ball[k0 + j]);
                    assert(n0 <= ball[k0 + j] < before.len());
                    assert(tree.nodes@[all[k0 + j] as int] == before[ball[k0 + j] as int]);
                }
                assert(all[k0 + k] == c);
                assert(keys[k as int] == ev[k as int].0);
            }
            assert forall|n: int| n0 <= n < tree.nodes@.len() implies #[trigger] node_mirrors(tree.nodes@, n) by {
                if n < c {
                    assert(node_mirrors(before, n));
                    lemma_mirrors_frame(before, tree.nodes@, n0, c as int, n);
                }
            }
            assert(closed(tree.nodes@, n0, tree.nodes@.len() as int)) by {
                assert forall|m: int, j: int|
                    n0 <= m < tree.nodes@.len() && 0 <= j < tree.nodes@[m].children@.len() implies
                    n0 <= #[trigger] tree.nodes@[m].children@[j] < tree.nodes@.len() by {
                    if m < c {
                        assert(tree.nodes@[m] == before[m]);
                    }
                }
            }
        }
        k = k + 1;
    }
    proof {
        assert(ev.subrange(0, entries.len() as int) =~= ev);
        assert(keys.subrange(0, k as int) =~= keys);
        let all = tree.nodes@[parent as int].children@;
        assert(all.subrange(k0, all.len() as int) =~= all.subrange(k0, k0 + k));
        assert forall|j: int| 0 <= j < k implies #[trigger] all.subrange(k0, all.len() as int)[j] == all[k0 + j] by {}
    }
}

/// Adds below `parent`, the last node of the tree, a node for each part of `v`
/// and, below each, for the parts of that part.
#[verifier::loop_isolation(false)]
#[verifier::rlimit(50)]
fn insert_entries(parent: usize, v: &JsonValue, tree: &mut VariableTree)
    requires
        old(tree).wf(),
        parent + 1 == old(tree).nodes@.len(),
        old(tree).nodes@[parent as int].children@.len() == 0,
        old(tree).nodes@[parent as int].value.view() == v.view(),
        parent + node_count(v.view()) < usize::MAX,
    ensures
        final(tree).wf(),
        final(tree).root == old(tree).root,
        final(tree).nodes@.len() == parent + node_count(v.view()),
        resolves_to(final(tree).nodes@, parent as int, v.view()),
        closed(final(tree).nodes@, parent as int, final(tree).nodes@.len() as int),
        forall|i: int| 0 <= i < parent ==> #[trigger] final(tree).nodes@[i] == old(tree).nodes@[i],
        final(tree).nodes@[parent as int].variable == old(tree).nodes@[parent as int].variable,
        final(tree).nodes@[parent as int].value == old(tree).nodes@[parent as int].value,
        child_names(final(tree).nodes@, final(tree).nodes@[parent as int].children@) == entry_keys(v.view()),
        forall|n: int| parent <= n < final(tree).nodes@.len() ==> #[trigger] node_mirrors(final(tree).nodes@, n),
        old(tree).one_parent_each() ==> final(tree).one_parent_each(),
    decreases v, 0nat,
{
    let ghost vv = v.view();
    let ghost es = entries_of(vv);
    let ghost t0 = tree.nodes@;
    match v {
        JsonValue::Array(items) => {
            proof { lemma_items_view(items@); }
            let ghost iv = items_view(items@);
            let mut k: usize = 0;
            assert(iv.subrange(0, 0).len() == 0);
            while k < items.len()
                invariant
                    tree.wf(),
                    tree.root == old(tree).root,
                    k <= items.len(),
                    tree.nodes@.len() == parent + 1 + items_count(iv.subrange(0, k as int)),
                    parent + 1 + items_count(iv) < usize::MAX,
                    forall|i: int| 0 <= i < parent ==> #[trigger] tree.nodes@[i] == t0[i],
                    tree.nodes@[parent as int].variable == t0[parent as int].variable,
                    tree.nodes@[parent as int].value == t0[parent as int].value,
                    tree.nodes@[parent as int].children@.len() == k,
                    child_names(tree.nodes@, tree.nodes@[parent as int].children@) == entry_keys(vv).subrange(0, k as int),
                    forall|j: int| 0 <= j < k ==> resolves_to(tree.nodes@,
                        #[trigger] tree.nodes@[parent as int].children@[j] as int, es[j].1),
                    closed(tree.nodes@, parent + 1, tree.nodes@.len() as int),
                    forall|n: int| parent + 1 <= n < tree.nodes@.len() ==> #[trigger] node_mirrors(tree.nodes@, n),
                    forall|j: int| 0 <= j < k ==>
                        #[trigger] tree.nodes@[tree.nodes@[parent as int].children@[j] as int].value.view() == es[j].1,
                    old(tree).one_parent_each() ==> tree.one_parent_each(),
                decreases items.len() - k,
            {
                proof {
                    assert(iv.subrange(0, k + 1).drop_last() =~= iv.subrange(0, k as int));
                    assert(items_count(iv.subrange(0, k as int)) + node_count(iv[k as int]) <= items_count(iv)) by {
                        lemma_count_prefix_items(iv, k + 1);
                    }
                    assert(decreases_to!(v => items[k as int]));
                }
                let ghost before = tree.nodes@;
                let key = decimal_string(k);
                let c = insert_value(parent, key, &items[k], tree);
                proof {
                    let kids = tree.nodes@[parent as int].children@;
                    assert forall|j: int| 0 <= j < k implies resolves_to(tree.nodes@,
                        #[trigger] tree.nodes@[parent as int].children@[j] as int, es[j].1) by {
                        let n = kids[j] as int;
                        assert(n == before[parent as int].children@[j]);
                        assert(resolves_to(before, n, es[j].1));
                        assert(unchanged_in(before, tree.nodes@, parent + 1, c as int));
                        assert(closed(before, parent + 1, c as int));
                        assert forall|segs: Seq<Seq<char>>| #[trigger] node_value(tree.nodes@, walk(tree.nodes@, n, segs))
                            == value_at(es[j].1, segs) by {
                            lemma_walk_frame(before, tree.nodes@, parent + 1, c as int, n, segs);
                        }
                    }
                    assert(es[k as int].1 == iv[k as int]);
                    assert(child_names(tree.nodes@, kids) =~= entry_keys(vv).subrange(0, k + 1)) by {
                        assert forall|j: int| 0 <= j < k implies tree.nodes@[kids[j] as int].variable@ == es[j].0 by {
                            assert(child_names(before, before[parent as int].children@)[j] == es[j].0);
                            assert(tree.nodes@[kids[j] as int] == before[kids[j] as int]);
                        }
                    }
                    assert forall|n: int| parent + 1 <= n < tree.nodes@.len() implies
                        #[trigger] node_mirrors(tree.nodes@, n) by {
                        if n < c {
                            assert(node_mirrors(before, n));
                            lemma_mirrors_frame(before, tree.nodes@, parent + 1, c as int, n);
                        }
                    }
                    assert forall|j: int| 0 <= j < k + 1 implies
                        #[trigger] tree.nodes@[tree.nodes@[parent as int].children@[j] as int].value.view() == es[j].1 by {
                        if j < k {
                            let n = kids[j] as int;
                            assert(n == before[parent as int].children@[j]);
                            assert(before[n].value.view() == es[j].1);
                            assert(tree.nodes@[n] == before[n]);
                        }
                    }
                    assert(closed(tree.nodes@, parent + 1, tree.nodes@.len() as int)) by {
                        assert forall|m: int, j: int|
                            parent + 1 <= m < tree.nodes@.len() && 0 <= j < tree.nodes@[m].children@.len() implies
                            parent + 1 <= #[trigger] tree.nodes@[m].children@[j] < tree.nodes@.len() by {
                            if m < c {
                                assert(tree.nodes@[m] == before[m]);
                            }
                        }
                    }
                }
                k = k + 1;
            }
            proof {
                assert(iv.subrange(0, items.len() as int) =~= iv);
                assert(entry_keys(vv).subrange(0, k as int) =~= entry_keys(vv));
                lemma_resolves_step(tree.nodes@, parent as int, vv);
                assert(node_mirrors(tree.nodes@, parent as int));
            }
        },
        JsonValue::Object(entries) => {
            proof {
                lemma_entries_view(entries@);
                assert(decreases_to!(v => entries));
            }
            let ghost ev = entries_view(entries@);
            assert(vv == JValue::Object(ev));
            insert_variables(parent, entries, tree);
            proof {
                let all = tree.nodes@[parent as int].children@;
                assert(all.subrange(0, all.len() as int) =~= all);
                assert(all.subrange(0, 0) =~= Seq::<usize>::empty());
                assert(entry_keys(vv) =~= ev.map_values(|e: (Seq<char>, JValue)| e.0));
                assert forall|k: int| 0 <= k < entries_of(vv).len() implies
                    resolves_to(tree.nodes@, #[trigger] all[k] as int, entries_of(vv)[k].1) by {
                    assert(all.subrange(0, all.len() as int)[k] == all[k]);
                }
                lemma_resolves_step(tree.nodes@, parent as int, vv);
                assert forall|k: int| 0 <= k < all.len() implies
                    #[trigger] tree.nodes@[all[k] as int].value.view() == entries_of(vv)[k].1 by {
                    assert(all.subrange(0, all.len() as int)[k] == all[k]);
                }
                assert(node_mirrors(tree.nodes@, parent as int));
                assert(closed(tree.nodes@, parent as int, tree.nodes@.len() as int)) by {
                    assert forall|m: int, j: int|
                        parent <= m < tree.nodes@.len() && 0 <= j < tree.nodes@[m].children@.len() implies
                        parent <= #[trigger] tree.nodes@[m].children@[j] < tree.nodes@.len() by {
                        if m == parent {
                            assert(all.subrange(0, all.len() as int)[j] == all[j]);
                        }
                    }
                }
            }
        },
        _ => {
            proof {
                assert(entry_keys(vv) =~= Seq::<Seq<char>>::empty());
                assert(child_names(tree.nodes@, tree.nodes@[parent as int].children@) =~= Seq::<Seq<char>>::empty());
                lemma_resolves_step(tree.nodes@, parent as int, vv);
                assert(node_mirrors(tree.nodes@, parent as int));
            }
        },
    }
}

proof fn lemma_count_prefix_items(s: Seq<JValue>, k: int)
    requires
        0 <= k <= s.len(),
    ensures
        items_count(s.subrange(0, k)) <= items_count(s),
    decreases s.len() - k,
{
    if k < s.len() {
        lemma_count_prefix_items(s, k + 1);
        assert(s.subrange(0, k + 1).drop_last() =~= s.subrange(0, k));
    } else {
        assert(s.subrange(0, k) =~= s);
    }
}

proof fn lemma_count_prefix_entries(s: Seq<(Seq<char>, JValue)>, k: int)
    requires
        0 <= k <= s.len(),
    ensures
        entries_count(s.subrange(0, k)) <= entries_count(s),
    decreases s.len() - k,
{
    if k < s.len() {
        lemma_count_prefix_entries(s, k + 1);
        assert(s.subrange(0, k + 1).drop_last() =~= s.subrange(0, k));
    } else {
        assert(s.subrange(0, k) =~= s);
    }
}

/// `tok` in double quotes: a placeholder that is a whole JSON string value.
pub open spec fn quoted(tok: Seq<char>) -> Seq<char> {
    seq!['"'] + tok + seq!['"']
}

/// `text` after the placeholder `tok` has been given the value `v`: first each
/// quoted occurrence becomes `v`'s JSON text, then each remaining occurrence
/// becomes `v`'s display text.
///
/// Each mode makes one left-to-right pass, which replaces every occurrence in
/// the text it is given. This is deliberate: repeating a pass until no
/// occurrence remains would never end where a value holds its own
/// placeholder (`{"A": "x${A}"}`).
pub open spec fn substitute_one(text: Seq<char>, tok: Seq<char>, v: JValue) -> Seq<char> {
    replace_all(replace_all(text, quoted(tok), json_text(v)), tok, display_text(v))
}

/// `text` after the placeholders `caps` (whole token, captured path) have been
/// given their values in `root`, one after the other; or the path of the first
/// one that names no value (the empty path where the pattern captured none).
pub open spec fn substitute(
    root: JValue,
    text: Seq<char>,
    caps: Seq<(Seq<char>, Option<Seq<char>>)>,
) -> Result<Seq<char>, Seq<char>>
    decreases caps.len(),
{
    if caps.len() == 0 {
        Ok(text)
    } else {
        match substitute(root, text, caps.drop_last()) {
            Err(p) => Err(p),
            Ok(t) => match caps.last().1 {
                None => Err(Seq::empty()),
                Some(path) => match lookup(root, path) {
                    None => Err(path),
                    Some(v) => Ok(substitute_one(t, caps.last().0, v)),
                },
            },
        }
    }
}

/// Builds a store with the default pattern from `json`, which must be an
/// object.
pub fn from_json(json: JsonValue) -> (r: Result<Variables, Error>)
    requires
        node_count(json.view()) < usize::MAX,
    ensures
        !(json.view() is Object) ==> r == Err::<Variables, Error>(Error::InvalidInputShape),
        json.view() is Object ==> match r {
            Ok(s) => regex_compiles(DEFAULT_PATTERN@) && s.pattern_source() == DEFAULT_PATTERN@
                && s.root() == json.view(),
            Err(e) => !regex_compiles(DEFAULT_PATTERN@) && e is InvalidPattern,
        },
{
    match json {
        JsonValue::Object(es) => Variables::new(es, None),
        _ => Err(Error::InvalidInputShape),
    }
}

/// Leaving entries out of an object does not add to its node count.
proof fn lemma_count_without(es: Seq<(Seq<char>, JValue)>, key: Seq<char>)
    ensures
        entries_count(without_key(es, key)) <= entries_count(es),
    decreases es.len(),
{
    reveal(Seq::filter);
    if es.len() > 0 {
        lemma_count_without(es.drop_last(), key);
        let kept = without_key(es, key);
        let pred = |e: (Seq<char>, JValue)| e.0 != key;
        if pred(es.last()) {
            assert(kept.drop_last() =~= without_key(es.drop_last(), key));
        }
    }
}

/// Once a prefix of the placeholders fails, the whole substitution fails the same way.
pub proof fn lemma_substitute_err(root: JValue, text: Seq<char>, caps: Seq<(Seq<char>, Option<Seq<char>>)>, k: int)
    requires
        0 <= k <= caps.len(),
        substitute(root, text, caps.subrange(0, k)) is Err,
    ensures
        substitute(root, text, caps) == substitute(root, text, caps.subrange(0, k)),
    decreases caps.len() - k,
{
    if k < caps.len() {
        assert(caps.subrange(0, k + 1).drop_last() =~= caps.subrange(0, k));
        lemma_substitute_err(root, text, caps, k + 1);
    } else {
        assert(caps.subrange(0, k) =~= caps);
    }
}

/// The result of resolving `text` against the variables `root` with the
/// placeholder pattern `pattern`.
pub open spec fn resolved(root: JValue, pattern: Seq<char>, text: Seq<char>) -> Result<Seq<char>, Seq<char>> {
    substitute(root, text, regex_captures(pattern, text))
}

/// The variables of a document, the placeholder pattern, and the tree that
/// indexes the variables by path.
#[derive(Debug)]
pub struct Variables {
    variables: Vec<(String, JsonValue)>,
    pattern: Pattern,
    tree: VariableTree,
}

/// A variable mapping split into the variables proper and the placeholder
/// pattern that the reserved `pattern` key may carry.
#[derive(Debug)]
pub struct VariablesDeserializer {
    pub variables: Vec<(String, JsonValue)>,
    pub pattern: Option<String>,
}

/// The key under which a variable mapping may carry its own placeholder pattern.
pub const PATTERN_KEY: &'static str = "pattern";

/// `es` without its entries named `key`.
pub open spec fn without_key(es: Seq<(Seq<char>, JValue)>, key: Seq<char>) -> Seq<(Seq<char>, JValue)> {
    es.filter(|e: (Seq<char>, JValue)| e.0 != key)
}

impl Variables {
    #[verifier::type_invariant]
    spec fn inv(&self) -> bool {
        &&& self.tree.wf()
        &&& self.tree.root == 0
        &&& self.tree.nodes@.len() == node_count(JValue::Object(entries_view(self.variables@)))
        &&& self.tree.nodes@[0].value.view() == JValue::Object(entries_view(self.variables@))
        &&& self.tree.mirrors_values()
        &&& self.tree.one_parent_each()
        &&& resolves_to(self.tree.nodes@, 0, JValue::Object(entries_view(self.variables@)))
    }

    /// The declared variables, as an object.
    pub closed spec fn root(&self) -> JValue {
        JValue::Object(entries_view(self.variables@))
    }

    /// The text of the placeholder pattern.
    pub closed spec fn pattern_source(&self) -> Seq<char> {
        self.pattern@
    }

    /// Builds the store from the variables and the placeholder pattern
    /// `pattern`, or the default pattern where it is `None`. Fails where the
    /// pattern does not compile.
    pub fn new(variables: Vec<(String, JsonValue)>, pattern: Option<String>) -> (r: Result<Variables, Error>)
        requires
            node_count(JValue::Object(entries_view(variables@))) < usize::MAX,
        ensures
            match pattern {
                Some(p) => match r {
                    Ok(s) => regex_compiles(p@) && s.pattern_source() == p@,
                    Err(e) => !regex_compiles(p@) && e == Error::InvalidPattern(p),
                },
                None => match r {
                    Ok(s) => regex_compiles(DEFAULT_PATTERN@) && s.pattern_source() == DEFAULT_PATTERN@,
                    Err(e) => !regex_compiles(DEFAULT_PATTERN@)
                        && e is InvalidPattern && e->InvalidPattern_0@ == DEFAULT_PATTERN@,
                },
            },
            r is Ok ==> r->Ok_0.root() == JValue::Object(entries_view(variables@)),
    {
        let compiled = match &pattern {
            Some(p) => Pattern::new(p.as_str()),
            None => default_pattern(),
        };
        match compiled {
            Some(pattern) => {
                let root = JsonValue::Object(variables);
                let tree = Self::create_tree(&root);
                let variables = match root {
                    JsonValue::Object(es) => es,
                    _ => Vec::new(),
                };
                Ok(Variables { variables, pattern, tree })
            },
            None => match pattern {
                Some(p) => Err(Error::InvalidPattern(p)),
                None => Err(Error::InvalidPattern(String::from_str(DEFAULT_PATTERN))),
            },
        }
    }

    /// The tree of `root`: a node holding it, and below it a node for each part
    /// of it, at every depth.
    fn create_tree(root: &JsonValue) -> (tree: VariableTree)
        requires
            node_count(root.view()) < usize::MAX,
        ensures
            tree.wf(),
            tree.root == 0,
            tree.nodes@.len() == node_count(root.view()),
            tree.nodes@[0].value.view() == root.view(),
            tree.mirrors_values(),
            tree.one_parent_each(),
            resolves_to(tree.nodes@, 0, root.view()),
    {
        let mut tree = VariableTree::new(root.duplicate());
        insert_entries(0, root, &mut tree);
        tree
    }

    /// Builds the store from a variable mapping that may carry its own
    /// placeholder pattern under the reserved `pattern` key; that key is not a
    /// variable. Fails where that key holds something other than a string, or
    /// the pattern does not compile.
    pub fn deserialize(mapping: Vec<(String, JsonValue)>) -> (r: Result<Variables, Error>)
        requires
            node_count(JValue::Object(entries_view(mapping@))) < usize::MAX,
        ensures
            !patterns_are_strings(entries_view(mapping@)) ==> r == Err::<Variables, Error>(Error::InvalidInputShape),
            patterns_are_strings(entries_view(mapping@)) ==> {
                let p = match pattern_entry(entries_view(mapping@)) {
                    Some(JValue::Str(s)) => s,
                    _ => DEFAULT_PATTERN@,
                };
                match r {
                    Ok(s) => regex_compiles(p) && s.pattern_source() == p
                        && s.root() == JValue::Object(without_key(entries_view(mapping@), PATTERN_KEY@))
                        && lookup(s.root(), PATTERN_KEY@) is None,
                    Err(e) => !regex_compiles(p) && e is InvalidPattern && e->InvalidPattern_0@ == p,
                }
            },
    {
        let d = match VariablesDeserializer::from_mapping(mapping) {
            Ok(d) => d,
            Err(e) => {
                return Err(e);
            },
        };
        proof {
            lemma_count_without(entries_view(mapping@), PATTERN_KEY@);
            lemma_pattern_key_not_variable(entries_view(mapping@), Seq::empty());
        }
        Variables::new(d.variables, d.pattern)
    }

    /// Builds the store from `json`, which must be an object; a `pattern` key
    /// in it is the placeholder pattern, not a variable.
    pub fn from_value(json: JsonValue) -> (r: Result<Variables, Error>)
        requires
            node_count(json.view()) < usize::MAX,
        ensures
            !(json.view() is Object) ==> r == Err::<Variables, Error>(Error::InvalidInputShape),
            json.view() is Object ==> {
                let es = json.view()->Object_0;
                let p = match pattern_entry(es) {
                    Some(JValue::Str(s)) => s,
                    _ => DEFAULT_PATTERN@,
                };
                if !patterns_are_strings(es) {
                    r == Err::<Variables, Error>(Error::InvalidInputShape)
                } else {
                    match r {
                        Ok(s) => regex_compiles(p) && s.pattern_source() == p
                            && s.root() == JValue::Object(without_key(es, PATTERN_KEY@))
                            && lookup(s.root(), PATTERN_KEY@) is None,
                        Err(e) => !regex_compiles(p) && e is InvalidPattern && e->InvalidPattern_0@ == p,
                    }
                }
            },
    {
        match json {
            JsonValue::Object(es) => Variables::deserialize(es),
            _ => Err(Error::InvalidInputShape),
        }
    }

    /// The variables as one compact JSON object.
    pub fn serialize(&self) -> (r: String)
        ensures
            r@ == json_text(self.root()),
    {
        let v = JsonValue::Object(JsonValue::duplicate_entries(&self.variables));
        v.to_json_string()
    }

    /// The declared variables.
    pub fn variables(&self) -> (r: &Vec<(String, JsonValue)>)
        ensures
            JValue::Object(entries_view(r@)) == self.root(),
    {
        &self.variables
    }

    /// The placeholder pattern.
    pub fn pattern(&self) -> (r: &Pattern)
        ensures
            r@ == self.pattern_source(),
    {
        &self.pattern
    }

    /// The value that the dotted `path` names among the variables.
    pub fn get(&self, path: &str) -> (r: Option<JsonValue>)
        ensures
            match r {
                Some(v) => lookup(self.root(), path@) == Some(v.view()),
                None => lookup(self.root(), path@).is_none(),
            },
    {
        proof { use_type_invariant(self); }
        let r = self.tree.get_variable_value(path);
        proof {
            assert(self.tree.resolve(path@) == lookup(self.root(), path@));
        }
        r
    }

    /// Replaces each placeholder of `config` with the value its path names.
    /// A placeholder that is a whole JSON string value (`"${AGE}"`) becomes the
    /// value's JSON text, keeping its type; one inside a longer string becomes
    /// the value's display text. Fails with the path of the first placeholder,
    /// in the order of the text, that names no variable; nothing is returned
    /// half done.
    pub fn replace(&self, config: &str) -> (r: Result<String, Error>)
        ensures
            match resolved(self.root(), self.pattern_source(), config@) {
                Ok(t) => r is Ok && r->Ok_0@ == t,
                Err(p) => r is Err && r->Err_0 is UndefinedVariable && r->Err_0->UndefinedVariable_0@ == p,
            },
    {
        let caps = self.pattern.captures(config);
        self.substitute_captures(config, &caps)
    }

    /// Gives the placeholders `caps` of `config`, each a whole matched token and
    /// the path it captured, their values, one after the other, as
    /// [`Variables::replace`] does with the matches of the pattern. Fails with
    /// the path of the first placeholder that names no variable (the empty
    /// path where none was captured).
    #[verifier::loop_isolation(false)]
    pub fn substitute_captures(&self, config: &str, caps: &Vec<(String, Option<String>)>) -> (r: Result<String, Error>)
        ensures
            match substitute(self.root(), config@, captures_view(caps@)) {
                Ok(t) => r is Ok && r->Ok_0@ == t,
                Err(p) => r is Err && r->Err_0 is UndefinedVariable && r->Err_0->UndefinedVariable_0@ == p,
            },
    {
        proof { use_type_invariant(self); }
        let ghost cv = captures_view(caps@);
        let ghost root = self.root();
        let mut text = chars_of(config);
        let mut i: usize = 0;
        assert(cv.subrange(0, 0).len() == 0);
        while i < caps.len()
            invariant
                i <= caps.len(),
                cv == captures_view(caps@),
                substitute(root, config@, cv.subrange(0, i as int)) == Ok::<Seq<char>, Seq<char>>(text@),
            decreases caps.len() - i,
        {
            proof {
                assert(cv.subrange(0, i + 1).drop_last() =~= cv.subrange(0, i as int));
            }
            let tok = &caps[i].0;
            match &caps[i].1 {
                None => {
                    proof { lemma_substitute_err(root, config@, cv, i + 1); }
                    return Err(Error::UndefinedVariable(String::new()));
                },
                Some(path) => {
                    let segs = split_path(path.as_str());
                    assert(segs@.map_values(|s: String| s@) =~= segments(path@));
                    proof {
                        let segs_v = segments(path@);
                        assert(node_value(self.tree.nodes@, walk(self.tree.nodes@, 0, segs_v))
                            == value_at(root, segs_v));
                    }
                    match self.tree.resolve_node(&segs) {
                        None => {
                            proof { lemma_substitute_err(root, config@, cv, i + 1); }
                            return Err(Error::UndefinedVariable(path.clone()));
                        },
                        Some(n) => {
                            let value = &self.tree.nodes[n].value;
                            let tok_chars = chars_of(tok.as_str());
                            let mut q: Vec<char> = Vec::new();
                            q.push('"');
                            let mut k: usize = 0;
                            while k < tok_chars.len()
                                invariant
                                    k <= tok_chars.len(),
                                    q@ == seq!['"'] + tok_chars@.subrange(0, k as int),
                                decreases tok_chars.len() - k,
                            {
                                q.push(tok_chars[k]);
                                assert(tok_chars@.subrange(0, k + 1) =~= tok_chars@.subrange(0, k as int).push(tok_chars@[k as int]));
                                k = k + 1;
                            }
                            q.push('"');
                            assert(q@ =~= quoted(tok@));
                            let whole = chars_of(value.to_json_string().as_str());
                            let shown = chars_of(value.to_display_string().as_str());
                            let t1 = replace_all_chars(&text, &q, &whole);
                            text = replace_all_chars(&t1, &tok_chars, &shown);
                        },
                    }
                },
            }
            i = i + 1;
        }
        assert(cv.subrange(0, caps.len() as int) =~= cv);
        Ok(string_of(text.as_slice()))
    }
}

impl VariablesDeserializer {
    /// Splits `mapping` into its variables and the pattern under the reserved
    /// `pattern` key, which is not a variable. Fails where that key holds
    /// something other than a string.
    pub fn from_mapping(mapping: Vec<(String, JsonValue)>) -> (r: Result<VariablesDeserializer, Error>)
        ensures
            match r {
                Ok(d) => entries_view(d.variables@) == without_key(entries_view(mapping@), PATTERN_KEY@)
                    && patterns_are_strings(entries_view(mapping@))
                    && pattern_entry(entries_view(mapping@)) == match d.pattern {
                        Some(p) => Some(JValue::Str(p@)),
                        None => None::<JValue>,
                    },
                Err(e) => e is InvalidInputShape && !patterns_are_strings(entries_view(mapping@)),
            },
    {
        let mut variables: Vec<(String, JsonValue)> = Vec::new();
        let mut pattern: Option<String> = None;
        let key = String::from_str(PATTERN_KEY);
        let ghost mv = entries_view(mapping@);
        proof { lemma_entries_view(mapping@); }
        let mut i: usize = 0;
        proof {
            reveal(Seq::filter);
            assert(without_key(mv.subrange(0, 0), PATTERN_KEY@) =~= Seq::empty());
        }
        while i < mapping.len()
            invariant
                i <= mapping.len(),
                key@ == PATTERN_KEY@,
                mv == entries_view(mapping@),
                mv.len() == mapping@.len(),
                forall|j: int| 0 <= j < mapping@.len() ==> #[trigger] mv[j] == (mapping@[j].0@, mapping@[j].1.view()),
                entries_view(variables@) == without_key(mv.subrange(0, i as int), PATTERN_KEY@),
                pattern_entry(mv.subrange(0, i as int)) == match pattern {
                    Some(p) => Some(JValue::Str(p@)),
                    None => None::<JValue>,
                },
                patterns_are_strings(mv.subrange(0, i as int)),
            decreases mapping.len() - i,
        {
            let ghost prefix = mv.subrange(0, i + 1);
            proof {
                reveal(Seq::filter);
                assert(prefix.drop_last() =~= mv.subrange(0, i as int));
                assert(prefix.last() == mv[i as int]);
            }
            if mapping[i].0 == key {
                match &mapping[i].1 {
                    JsonValue::Str(p) => {
                        if pattern.is_none() {
                            pattern = Some(p.clone());
                        }
                    },
                    _ => {
                        assert(mv[i as int].0 == PATTERN_KEY@ && !(mv[i as int].1 is Str));
                        return Err(Error::InvalidInputShape);
                    },
                }
                assert(without_key(prefix, PATTERN_KEY@) =~= without_key(mv.subrange(0, i as int), PATTERN_KEY@));
            } else {
                let ghost before = variables@;
                variables.push((mapping[i].0.clone(), mapping[i].1.duplicate()));
                proof {
                    assert(variables@.drop_last() =~= before);
                    assert(entries_view(variables@) == entries_view(before).push(mv[i as int]));
                    assert(without_key(prefix, PATTERN_KEY@) =~= without_key(mv.subrange(0, i as int), PATTERN_KEY@).push(mv[i as int]));
                }
            }
            i = i + 1;
        }
        assert(mv.subrange(0, mapping.len() as int) =~= mv);
        Ok(VariablesDeserializer { variables, pattern })
    }
}

/// Every entry named `pattern` in `es` holds a string.
pub open spec fn patterns_are_strings(es: Seq<(Seq<char>, JValue)>) -> bool {
    forall|j: int| 0 <= j < es.len() && (#[trigger] es[j]).0 == PATTERN_KEY@ ==> es[j].1 is Str
}

/// The value of the first entry named `pattern` in `es`, as a path lookup
/// would find it.
pub open spec fn pattern_entry(es: Seq<(Seq<char>, JValue)>) -> Option<JValue>
    decreases es.len(),
{
    if es.len() == 0 {
        None
    } else if pattern_entry(es.drop_last()) is Some {
        pattern_entry(es.drop_last())
    } else if es.last().0 == PATTERN_KEY@ {
        Some(es.last().1)
    } else {
        None
    }
}

/// No two entries of `es` share a key, as in a JSON object read by a parser.
/// Where this holds, the first entry of a key is its only one.
pub open spec fn keys_unique(es: Seq<(Seq<char>, JValue)>) -> bool {
    forall|i: int, j: int| 0 <= i < es.len() && 0 <= j < es.len() && i != j ==> (#[trigger] es[i]).0 != (#[trigger] es[j]).0
}

} // verus!

verus! {

proof fn lemma_replace_whole(p: Seq<char>, rep: Seq<char>)
    requires
        p.len() > 0,
    ensures
        replace_all(p, p, rep) == rep,
{
    assert(p.subrange(0, p.len() as int) =~= p);
    assert(crate::text::occurs_at(p, 0, p));
    let e = p.subrange(p.len() as int, p.len() as int);
    assert(e =~= Seq::<char>::empty());
    assert(replace_all(e, p, rep) == e);
    assert(replace_all(p, p, rep) == rep + replace_all(e, p, rep));
    assert(rep + e =~= rep);
}

/// A placeholder that is the whole text, in quotes, becomes the JSON text of
/// its value: a number, boolean, array or object keeps its type, a string
/// stays quoted. (Where the value's own JSON text holds the placeholder, the
/// second pass would rewrite it there too.)
pub proof fn lemma_whole_value(root: JValue, pattern: Seq<char>, tok: Seq<char>, path: Seq<char>)
    requires
        regex_captures(pattern, quoted(tok)) == seq![(tok, Some(path))],
        lookup(root, path) is Some,
        !crate::text::contains(json_text(lookup(root, path)->Some_0), tok),
    ensures
        resolved(root, pattern, quoted(tok)) == Ok::<Seq<char>, Seq<char>>(json_text(lookup(root, path)->Some_0)),
{
    let caps = seq![(tok, Some(path))];
    let v = lookup(root, path)->Some_0;
    assert(caps.drop_last() =~= Seq::<(Seq<char>, Option<Seq<char>>)>::empty());
    lemma_replace_whole(quoted(tok), json_text(v));
    crate::text::lemma_replace_absent(json_text(v), tok, display_text(v));
    assert(substitute(root, quoted(tok), caps.drop_last()) == Ok::<Seq<char>, Seq<char>>(quoted(tok)));
    assert(substitute_one(quoted(tok), tok, v) == json_text(v));
}

/// A placeholder whose path names no variable makes the whole resolution
/// fail; nothing passes through unresolved.
pub proof fn lemma_undefined_fails(root: JValue, text: Seq<char>, caps: Seq<(Seq<char>, Option<Seq<char>>)>, k: int)
    requires
        0 <= k < caps.len(),
        caps[k].1 is Some,
        lookup(root, caps[k].1->Some_0) is None,
    ensures
        substitute(root, text, caps) is Err,
        (forall|j: int| 0 <= j < k ==> (#[trigger] caps[j]).1 is Some && lookup(root, caps[j].1->Some_0) is Some)
            ==> substitute(root, text, caps) == Err::<Seq<char>, Seq<char>>(caps[k].1->Some_0),
{
    let pre = caps.subrange(0, k + 1);
    assert(pre.drop_last() =~= caps.subrange(0, k));
    assert(pre.last() == caps[k]);
    lemma_substitute_err(root, text, caps, k + 1);
    if forall|j: int| 0 <= j < k ==> (#[trigger] caps[j]).1 is Some && lookup(root, caps[j].1->Some_0) is Some {
        lemma_substitute_ok_prefix(root, text, caps, k);
    }
}

proof fn lemma_substitute_ok_prefix(root: JValue, text: Seq<char>, caps: Seq<(Seq<char>, Option<Seq<char>>)>, k: int)
    requires
        0 <= k <= caps.len(),
        forall|j: int| 0 <= j < k ==> (#[trigger] caps[j]).1 is Some && lookup(root, caps[j].1->Some_0) is Some,
    ensures
        substitute(root, text, caps.subrange(0, k)) is Ok,
    decreases k,
{
    if k > 0 {
        assert(caps.subrange(0, k).drop_last() =~= caps.subrange(0, k - 1));
        lemma_substitute_ok_prefix(root, text, caps, k - 1);
    }
}

/// A text in which the pattern finds no placeholder comes back unchanged, so
/// resolving a resolved text again changes nothing.
pub proof fn lemma_no_placeholder(root: JValue, pattern: Seq<char>, text: Seq<char>)
    requires
        regex_captures(pattern, text).len() == 0,
    ensures
        resolved(root, pattern, text) == Ok::<Seq<char>, Seq<char>>(text),
{
}

/// The reserved `pattern` key is never a variable: once a mapping is split,
/// no path that starts with it names anything.
pub proof fn lemma_pattern_key_not_variable(es: Seq<(Seq<char>, JValue)>, rest: Seq<Seq<char>>)
    ensures
        value_at(JValue::Object(without_key(es, PATTERN_KEY@)), seq![PATTERN_KEY@] + rest) is None,
        lookup(JValue::Object(without_key(es, PATTERN_KEY@)), PATTERN_KEY@) is None,
{
    let v = JValue::Object(without_key(es, PATTERN_KEY@));
    let kept = without_key(es, PATTERN_KEY@);
    let pred = |e: (Seq<char>, JValue)| e.0 != PATTERN_KEY@;
    kept.lemma_filter_len(pred);
    assert forall|j: int| 0 <= j < kept.len() implies entry_keys(v)[j] != PATTERN_KEY@ by {
        es.lemma_filter_pred(pred, j);
    }
    crate::tree::lemma_first_index(entry_keys(v), PATTERN_KEY@);
    let segs = seq![PATTERN_KEY@] + rest;
    assert(segs[0] == PATTERN_KEY@);
    reveal_strlit("pattern");
    crate::text::lemma_segments_single(PATTERN_KEY@);
    assert(segments(PATTERN_KEY@)[0] == PATTERN_KEY@);
}

} // verus!

verus! {

proof fn lemma_pattern_entry_none(es: Seq<(Seq<char>, JValue)>)
    requires
        forall|i: int| 0 <= i < es.len() ==> (#[trigger] es[i]).0 != PATTERN_KEY@,
    ensures
        pattern_entry(es) is None,
    decreases es.len(),
{
    if es.len() > 0 {
        let init = es.drop_last();
        assert forall|i: int| 0 <= i < init.len() implies (#[trigger] init[i]).0 != PATTERN_KEY@ by {
            assert(init[i] == es[i]);
        }
        lemma_pattern_entry_none(init);
        assert(es.last() == es[es.len() - 1]);
    }
}

/// Where keys are unique, the pattern a mapping carries is the value of its
/// one entry named `pattern`.
pub proof fn lemma_unique_pattern_entry(es: Seq<(Seq<char>, JValue)>, j: int)
    requires
        keys_unique(es),
        0 <= j < es.len(),
        es[j].0 == PATTERN_KEY@,
    ensures
        pattern_entry(es) == Some(es[j].1),
    decreases es.len(),
{
    let init = es.drop_last();
    let last = es.len() - 1;
    assert(es.last() == es[last]);
    if j < last {
        assert(es[last].0 != es[j].0);
        assert(keys_unique(init)) by {
            assert forall|a: int, b: int| 0 <= a < init.len() && 0 <= b < init.len() && a != b implies
                (#[trigger] init[a]).0 != (#[trigger] init[b]).0 by {
                assert(init[a] == es[a] && init[b] == es[b]);
            }
        }
        assert(init[j] == es[j]);
        lemma_unique_pattern_entry(init, j);
    } else {
        assert forall|i: int| 0 <= i < init.len() implies (#[trigger] init[i]).0 != PATTERN_KEY@ by {
            assert(init[i] == es[i]);
            assert(es[i].0 != es[last].0);
        }
        lemma_pattern_entry_none(init);
    }
}

} // verus!
