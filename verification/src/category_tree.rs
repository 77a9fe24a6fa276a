//! The category tree: classified items grouped into named buckets, one
//! collection per classification kind, with filtered and sorted read
//! views.

use vstd::prelude::*;
use crate::categorizer::Category;
use crate::text::{
    chars_of, contains_sub, find_sub, le_chars, lemma_seq_le_total, lemma_seq_le_trans, lower_of,
    lowercase, seq_le,
};
use crate::M3UItem;

verus! {

/// A named bucket of items.  Items stand in first-seen order.
#[derive(Debug, Clone)]
pub struct CategoryNode {
    pub name: String,
    pub items: Vec<M3UItem>,
}

/// The grouped catalog: one collection of named buckets per
/// classification kind.
#[derive(Debug, Clone)]
pub struct CategoryTree {
    pub movies: Vec<CategoryNode>,
    pub series: Vec<CategoryNode>,
    pub live_streams: Vec<CategoryNode>,
}

/// Per-URL user preferences for one item.
#[derive(Debug, Clone)]
pub struct UserItemPrefs {
    pub url: String,
    pub favorite: bool,
    pub hidden: bool,
}

/// Which of the three collections a classification belongs to.
pub open spec fn kind_idx(c: Category) -> int {
    match c {
        Category::Movie { .. } => 0,
        Category::Series { .. } => 1,
        Category::LiveStream => 2,
    }
}

/// The display group of an item: its raw group label, with the empty
/// label replaced by the fixed placeholder.
pub open spec fn display_group(item: M3UItem) -> Seq<char> {
    if item.group@.len() == 0 {
        "Uncategorized"@
    } else {
        item.group@
    }
}

/// The distinct display groups of the items of kind `k`, in first-seen
/// order.
pub open spec fn groups_of(items: Seq<M3UItem>, k: int) -> Seq<Seq<char>>
    decreases items.len(),
{
    if items.len() == 0 {
        Seq::empty()
    } else {
        let rest = groups_of(items.drop_last(), k);
        let it = items.last();
        if kind_idx(it.category) == k && !rest.contains(display_group(it)) {
            rest.push(display_group(it))
        } else {
            rest
        }
    }
}

/// The items of kind `k` whose display group is `g`, in order.
pub open spec fn bucket(items: Seq<M3UItem>, k: int, g: Seq<char>) -> Seq<M3UItem>
    decreases items.len(),
{
    if items.len() == 0 {
        Seq::empty()
    } else {
        let rest = bucket(items.drop_last(), k, g);
        let it = items.last();
        if kind_idx(it.category) == k && display_group(it) == g {
            rest.push(it)
        } else {
            rest
        }
    }
}

/// The number of items of kind `k`.
pub open spec fn count_kind(items: Seq<M3UItem>, k: int) -> int
    decreases items.len(),
{
    if items.len() == 0 {
        0
    } else {
        count_kind(items.drop_last(), k) + if kind_idx(items.last().category) == k {
            1int
        } else {
            0int
        }
    }
}

/// Total number of items across a sequence of nodes.
pub open spec fn nodes_count(nodes: Seq<CategoryNode>) -> int
    decreases nodes.len(),
{
    if nodes.len() == 0 {
        0
    } else {
        nodes_count(nodes.drop_last()) + nodes.last().items@.len()
    }
}

/// One collection of nodes holds exactly the kind-`k` items of
/// `items`: one node per distinct display group in first-seen order,
/// each holding its group's items in order.
pub open spec fn nodes_group(nodes: Seq<CategoryNode>, items: Seq<M3UItem>, k: int) -> bool {
    &&& nodes.len() == groups_of(items, k).len()
    &&& forall|j: int| 0 <= j < nodes.len() ==> (#[trigger] nodes[j].name)@ == groups_of(items, k)[j]
    &&& forall|j: int|
        0 <= j < nodes.len() ==> (#[trigger] nodes[j].items)@ == bucket(items, k, groups_of(items, k)[j])
}

/// The groups of one kind never repeat.
proof fn lemma_groups_distinct(items: Seq<M3UItem>, k: int)
    ensures
        forall|i: int, j: int|
            0 <= i < j < groups_of(items, k).len() ==> groups_of(items, k)[i] != groups_of(
                items,
                k,
            )[j],
    decreases items.len(),
{
    if items.len() > 0 {
        lemma_groups_distinct(items.drop_last(), k);
        let rest = groups_of(items.drop_last(), k);
        let it = items.last();
        if kind_idx(it.category) == k && !rest.contains(display_group(it)) {
            assert forall|i: int, j: int|
                0 <= i < j < groups_of(items, k).len() implies groups_of(items, k)[i] != groups_of(
                items,
                k,
            )[j] by {
                if j == rest.len() {
                    assert(rest[i] == groups_of(items, k)[i]);
                    assert(!rest.contains(display_group(it)));
                    assert(rest[i] != display_group(it));
                }
            }
        }
    }
}

/// A group with any item at all is recorded among the groups.
proof fn lemma_bucket_groups(items: Seq<M3UItem>, k: int, g: Seq<char>)
    requires
        !groups_of(items, k).contains(g),
    ensures
        bucket(items, k, g).len() == 0,
    decreases items.len(),
{
    if items.len() > 0 {
        let rest = groups_of(items.drop_last(), k);
        let it = items.last();
        assert forall|x: Seq<char>| rest.contains(x) implies groups_of(items, k).contains(x) by {
            let i = choose|i: int| 0 <= i < rest.len() && rest[i] == x;
            if kind_idx(it.category) == k && !rest.contains(display_group(it)) {
                assert(groups_of(items, k)[i] == x);
            } else {
                assert(groups_of(items, k)[i] == x);
            }
        }
        lemma_bucket_groups(items.drop_last(), k, g);
        if kind_idx(it.category) == k && display_group(it) == g {
            if kind_idx(it.category) == k && !rest.contains(display_group(it)) {
                assert(groups_of(items, k).last() == display_group(it));
                assert(groups_of(items, k).contains(g));
            } else {
                assert(rest.contains(g));
            }
        }
    }
}

proof fn lemma_nodes_count_update(nodes: Seq<CategoryNode>, j: int, node2: CategoryNode)
    requires
        0 <= j < nodes.len(),
    ensures
        nodes_count(nodes.update(j, node2)) == nodes_count(nodes) - nodes[j].items@.len()
            + node2.items@.len(),
    decreases nodes.len(),
{
    if j == nodes.len() - 1 {
        assert(nodes.update(j, node2).drop_last() =~= nodes.drop_last());
        assert(nodes.update(j, node2).last() == node2);
    } else {
        assert(nodes.update(j, node2).drop_last() =~= nodes.drop_last().update(j, node2));
        assert(nodes.update(j, node2).last() == nodes.last());
        lemma_nodes_count_update(nodes.drop_last(), j, node2);
    }
}

/// A field-by-field copy of an item.
pub(crate) fn item_copy(it: &M3UItem) -> (r: M3UItem)
    ensures
        r == *it,
{
    M3UItem {
        title: it.title.clone(),
        url: it.url.clone(),
        group: it.group.clone(),
        logo: match &it.logo {
            Some(l) => Some(l.clone()),
            None => None,
        },
        category: it.category,
    }
}

/// Append `item` (of kind `k`, display group `gname`) to its bucket,
/// creating the bucket at the end on first sight of the group.
#[verifier::loop_isolation(false)]
fn insert_into(
    nodes: &mut Vec<CategoryNode>,
    item: M3UItem,
    gname: String,
    Ghost(k): Ghost<int>,
    Ghost(pref): Ghost<Seq<M3UItem>>,
)
    requires
        gname@ == display_group(item),
        kind_idx(item.category) == k,
        nodes_group(old(nodes)@, pref, k),
        nodes_count(old(nodes)@) == count_kind(pref, k),
    ensures
        nodes_group(final (nodes)@, pref.push(item), k),
        nodes_count(final (nodes)@) == count_kind(pref.push(item), k),
{
    proof {
        lemma_groups_distinct(pref, k);
        assert(pref.push(item).drop_last() =~= pref);
    }
    let ghost pref2 = pref.push(item);
    let n = nodes.len();
    let mut j: usize = 0;
    while j < n
        invariant
            j <= n,
            nodes@ == old(nodes)@,
            n == nodes@.len(),
            forall|l: int| 0 <= l < j ==> (#[trigger] nodes@[l].name)@ != gname@,
        decreases n - j,
    {
        if nodes[j].name == gname {
            let node = nodes.remove(j);
            let mut its = node.items;
            its.push(item);
            let node2 = CategoryNode { name: node.name, items: its };
            nodes.insert(j, node2);
            proof {
                assert(nodes@ =~= old(nodes)@.update(j as int, node2));
                assert(groups_of(pref, k).contains(gname@)) by {
                    assert(groups_of(pref, k)[j as int] == old(nodes)@[j as int].name@);
                }
                assert(groups_of(pref2, k) == groups_of(pref, k));
                assert forall|l: int| 0 <= l < nodes@.len() implies (#[trigger] nodes@[l].items)@
                    == bucket(pref2, k, groups_of(pref2, k)[l]) by {
                    if l == j {
                        assert(bucket(pref2, k, gname@) == bucket(pref, k, gname@).push(item));
                    } else {
                        assert(groups_of(pref, k)[l] != gname@);
                        assert(bucket(pref2, k, groups_of(pref2, k)[l]) == bucket(
                            pref,
                            k,
                            groups_of(pref, k)[l],
                        ));
                    }
                }
                lemma_nodes_count_update(old(nodes)@, j as int, node2);
            }
            return ;
        }
        j = j + 1;
    }
    // The group was never seen: a fresh bucket at the end.
    proof {
        assert(nodes@ == old(nodes)@);
        assert(!groups_of(pref, k).contains(gname@)) by {
            if groups_of(pref, k).contains(gname@) {
                let l = choose|l: int|
                    0 <= l < groups_of(pref, k).len() && groups_of(pref, k)[l] == gname@;
                assert(old(nodes)@[l].name@ == gname@);
                assert(nodes@[l].name@ == gname@);
            }
        }
        lemma_bucket_groups(pref, k, gname@);
    }
    let mut its: Vec<M3UItem> = Vec::new();
    its.push(item);
    let node2 = CategoryNode { name: gname, items: its };
    nodes.push(node2);
    proof {
        assert(groups_of(pref2, k) == groups_of(pref, k).push(display_group(item)));
        assert(nodes@.drop_last() =~= old(nodes)@);
        assert forall|l: int| 0 <= l < nodes@.len() implies (#[trigger] nodes@[l].items)@ == bucket(
            pref2,
            k,
            groups_of(pref2, k)[l],
        ) by {
            if l < old(nodes)@.len() {
                assert(groups_of(pref, k)[l] != display_group(item));
                assert(bucket(pref2, k, groups_of(pref2, k)[l]) == bucket(
                    pref,
                    k,
                    groups_of(pref, k)[l],
                ));
            } else {
                assert(bucket(pref2, k, display_group(item)) == bucket(
                    pref,
                    k,
                    display_group(item),
                ).push(item));
                assert(bucket(pref, k, display_group(item)) =~= Seq::<M3UItem>::empty());
            }
        }
        assert(nodes_count(nodes@) == nodes_count(old(nodes)@) + 1);
    }
}

/// The mathematical content of a node: its name and its items.
pub type NodeData = (Seq<char>, Seq<M3UItem>);

/// The name and items of a node.
pub open spec fn node_data(n: CategoryNode) -> NodeData {
    (n.name@, n.items@)
}

/// The data of each node, in order.
pub open spec fn nodes_data(ns: Seq<CategoryNode>) -> Seq<NodeData> {
    ns.map_values(|n: CategoryNode| node_data(n))
}

/// `s` occurs among the views of `list`.
pub open spec fn contains_name(list: Seq<String>, s: Seq<char>) -> bool {
    exists|i: int| 0 <= i < list.len() && list[i]@ == s
}

/// The nodes whose names are not hidden, in order.
pub open spec fn visible(ns: Seq<NodeData>, hidden: Seq<String>) -> Seq<NodeData>
    decreases ns.len(),
{
    if ns.len() == 0 {
        Seq::empty()
    } else {
        let rest = visible(ns.drop_last(), hidden);
        if contains_name(hidden, ns.last().0) {
            rest
        } else {
            rest.push(ns.last())
        }
    }
}

/// View order on nodes: sticky names sort before non-sticky, and within
/// each partition nodes sort by case-insensitive name comparison.
pub open spec fn data_le(a: NodeData, b: NodeData, sticky: Seq<String>) -> bool {
    let sa = contains_name(sticky, a.0);
    let sb = contains_name(sticky, b.0);
    if sa != sb {
        sa
    } else {
        seq_le(lower_of(a.0), lower_of(b.0))
    }
}

/// The node sequence is ordered by the view order.
pub open spec fn nodes_sorted(ns: Seq<NodeData>, sticky: Seq<String>) -> bool {
    forall|i: int, j: int| 0 <= i < j < ns.len() ==> data_le(ns[i], ns[j], sticky)
}

proof fn lemma_data_le_total(a: NodeData, b: NodeData, sticky: Seq<String>)
    ensures
        data_le(a, b, sticky) || data_le(b, a, sticky),
{
    lemma_seq_le_total(lower_of(a.0), lower_of(b.0));
}

proof fn lemma_data_le_trans(a: NodeData, b: NodeData, c: NodeData, sticky: Seq<String>)
    requires
        data_le(a, b, sticky),
        data_le(b, c, sticky),
    ensures
        data_le(a, c, sticky),
{
    if contains_name(sticky, a.0) == contains_name(sticky, b.0) && contains_name(sticky, b.0)
        == contains_name(sticky, c.0) {
        lemma_seq_le_trans(lower_of(a.0), lower_of(b.0), lower_of(c.0));
    }
}

/// Whether `s` occurs among the strings of `list`.
fn contains_name_exec(list: &Vec<String>, s: &String) -> (r: bool)
    ensures
        r == contains_name(list@, s@),
{
    let n = list.len();
    let mut i: usize = 0;
    while i < n
        invariant
            i <= n,
            n == list@.len(),
            forall|l: int| 0 <= l < i ==> (#[trigger] list@[l])@ != s@,
        decreases n - i,
    {
        if list[i] == *s {
            return true;
        }
        i = i + 1;
    }
    false
}

/// A copy of a vector of items.
fn items_copy(v: &Vec<M3UItem>) -> (r: Vec<M3UItem>)
    ensures
        r@ == v@,
{
    let n = v.len();
    let mut r: Vec<M3UItem> = Vec::new();
    let mut i: usize = 0;
    while i < n
        invariant
            i <= n,
            n == v@.len(),
            r@ == v@.subrange(0, i as int),
        decreases n - i,
    {
        r.push(item_copy(&v[i]));
        i = i + 1;
        assert(r@ =~= v@.subrange(0, i as int));
    }
    assert(v@.subrange(0, n as int) =~= v@);
    r
}

/// A copy of a node, equal in name and items.
fn node_copy(n: &CategoryNode) -> (r: CategoryNode)
    ensures
        node_data(r) == node_data(*n),
{
    CategoryNode { name: n.name.clone(), items: items_copy(&n.items) }
}

/// Decide the view order between two nodes.
fn data_le_exec(a: &CategoryNode, b: &CategoryNode, sticky: &Vec<String>) -> (r: bool)
    ensures
        r == data_le(node_data(*a), node_data(*b), sticky@),
{
    let sa = contains_name_exec(sticky, &a.name);
    let sb = contains_name_exec(sticky, &b.name);
    if sa != sb {
        sa
    } else {
        let la = lowercase(a.name.as_str());
        let lb = lowercase(b.name.as_str());
        le_chars(&chars_of(la.as_str()), &chars_of(lb.as_str()))
    }
}

/// Copies of the nodes whose names are not hidden, in order.
fn filter_nodes(nodes: &Vec<CategoryNode>, hidden: &Vec<String>) -> (r: Vec<CategoryNode>)
    ensures
        nodes_data(r@) == visible(nodes_data(nodes@), hidden@),
{
    let n = nodes.len();
    let mut r: Vec<CategoryNode> = Vec::new();
    let mut i: usize = 0;
    assert(nodes_data(nodes@.subrange(0, 0)) =~= Seq::<NodeData>::empty());
    assert(nodes_data(r@) =~= Seq::<NodeData>::empty());
    while i < n
        invariant
            i <= n,
            n == nodes@.len(),
            nodes_data(r@) == visible(nodes_data(nodes@.subrange(0, i as int)), hidden@),
        decreases n - i,
    {
        let ghost pre = nodes_data(nodes@.subrange(0, i as int));
        proof {
            assert(nodes@.subrange(0, i + 1).drop_last() =~= nodes@.subrange(0, i as int));
            assert(nodes_data(nodes@.subrange(0, i + 1)).drop_last() =~= pre);
            assert(nodes_data(nodes@.subrange(0, i + 1)).last() == node_data(nodes@[i as int]));
            assert(nodes_data(nodes@.subrange(0, i + 1)) =~= pre.push(node_data(nodes@[i as int])));
        }
        if !contains_name_exec(hidden, &nodes[i].name) {
            let ghost dr = nodes_data(r@);
            let c = node_copy(&nodes[i]);
            r.push(c);
            proof {
                assert(nodes_data(r@) =~= dr.push(node_data(c)));
            }
        }
        i = i + 1;
    }
    assert(nodes@.subrange(0, n as int) =~= nodes@);
    r
}

/// Sort node copies by the view order, by insertion.
fn sort_nodes(nodes: Vec<CategoryNode>, sticky: &Vec<String>) -> (r: Vec<CategoryNode>)
    ensures
        nodes_data(r@).to_multiset() == nodes_data(nodes@).to_multiset(),
        nodes_sorted(nodes_data(r@), sticky@),
{
    broadcast use vstd::seq_lib::group_to_multiset_ensures;

    let n = nodes.len();
    let mut r: Vec<CategoryNode> = Vec::new();
    let mut i: usize = 0;
    assert(nodes_data(nodes@.subrange(0, 0)) =~= Seq::<NodeData>::empty());
    assert(nodes_data(r@) =~= Seq::<NodeData>::empty());
    while i < n
        invariant
            i <= n,
            n == nodes@.len(),
            nodes_data(r@).to_multiset() == nodes_data(nodes@.subrange(0, i as int)).to_multiset(),
            nodes_sorted(nodes_data(r@), sticky@),
        decreases n - i,
    {
        let x = node_copy(&nodes[i]);
        let ghost d = nodes_data(r@);
        let ghost dx = node_data(x);
        let rn = r.len();
        let mut j: usize = 0;
        while j < rn && data_le_exec(&r[j], &x, sticky)
            invariant
                j <= rn,
                rn == r@.len(),
                nodes_data(r@) == d,
                forall|l: int| 0 <= l < j ==> data_le(d[l], dx, sticky@),
            decreases rn - j,
        {
            j = j + 1;
        }
        proof {
            if j < rn {
                assert(!data_le(d[j as int], dx, sticky@));
                lemma_data_le_total(d[j as int], dx, sticky@);
            }
        }
        r.insert(j, x);
        proof {
            let d2 = nodes_data(r@);
            assert(d2 =~= d.insert(j as int, dx)) by {
                assert forall|l: int| 0 <= l < d2.len() implies d2[l] == d.insert(j as int, dx)[l]
                    by {}
            }
            assert(d2.to_multiset() == d.to_multiset().insert(dx));
            assert(nodes_data(nodes@.subrange(0, i + 1)) =~= nodes_data(
                nodes@.subrange(0, i as int),
            ).push(node_data(nodes@[i as int]))) by {
                assert(nodes@.subrange(0, i + 1).drop_last() =~= nodes@.subrange(0, i as int));
            }
            assert(nodes_data(nodes@.subrange(0, i + 1)).to_multiset() == nodes_data(
                nodes@.subrange(0, i as int),
            ).to_multiset().insert(dx));
            assert forall|p: int, q: int| 0 <= p < q < d2.len() implies data_le(
                d2[p],
                d2[q],
                sticky@,
            ) by {
                if q < j {
                    assert(data_le(d[p], d[q], sticky@));
                } else if q == j {
                    assert(data_le(d[p], dx, sticky@));
                } else {
                    if p < j {
                        if p < q - 1 {
                            assert(data_le(d[p], d[q - 1], sticky@));
                        }
                    } else if p == j {
                        assert(data_le(dx, d[j as int], sticky@));
                        if j < q - 1 {
                            assert(data_le(d[j as int], d[q - 1], sticky@));
                            lemma_data_le_trans(dx, d[j as int], d[q - 1], sticky@);
                        }
                    } else {
                        assert(data_le(d[p - 1], d[q - 1], sticky@));
                    }
                }
            }
        }
        i = i + 1;
    }
    assert(nodes@.subrange(0, n as int) =~= nodes@);
    r
}

/// The preference pair (favorite, hidden) for a URL: the first entry
/// with that URL decides; an absent URL defaults to neither.
pub open spec fn pref_of(prefs: Seq<UserItemPrefs>, url: Seq<char>) -> (bool, bool)
    decreases prefs.len(),
{
    if prefs.len() == 0 {
        (false, false)
    } else if prefs[0].url@ == url {
        (prefs[0].favorite, prefs[0].hidden)
    } else {
        pref_of(prefs.drop_first(), url)
    }
}

/// The items not hidden by the preferences, in order.
pub open spec fn visible_items(items: Seq<M3UItem>, prefs: Seq<UserItemPrefs>) -> Seq<M3UItem>
    decreases items.len(),
{
    if items.len() == 0 {
        Seq::empty()
    } else {
        let rest = visible_items(items.drop_last(), prefs);
        if pref_of(prefs, items.last().url@).1 {
            rest
        } else {
            rest.push(items.last())
        }
    }
}

/// View order on items: favorites sort first, then case-insensitive
/// title comparison.
pub open spec fn item_le(a: M3UItem, b: M3UItem, prefs: Seq<UserItemPrefs>) -> bool {
    let fa = pref_of(prefs, a.url@).0;
    let fb = pref_of(prefs, b.url@).0;
    if fa != fb {
        fa
    } else {
        seq_le(lower_of(a.title@), lower_of(b.title@))
    }
}

/// The item sequence is ordered by the view order.
pub open spec fn items_sorted(items: Seq<M3UItem>, prefs: Seq<UserItemPrefs>) -> bool {
    forall|i: int, j: int| 0 <= i < j < items.len() ==> item_le(items[i], items[j], prefs)
}

proof fn lemma_item_le_total(a: M3UItem, b: M3UItem, prefs: Seq<UserItemPrefs>)
    ensures
        item_le(a, b, prefs) || item_le(b, a, prefs),
{
    lemma_seq_le_total(lower_of(a.title@), lower_of(b.title@));
}

proof fn lemma_item_le_trans(a: M3UItem, b: M3UItem, c: M3UItem, prefs: Seq<UserItemPrefs>)
    requires
        item_le(a, b, prefs),
        item_le(b, c, prefs),
    ensures
        item_le(a, c, prefs),
{
    if pref_of(prefs, a.url@).0 == pref_of(prefs, b.url@).0 && pref_of(prefs, b.url@).0 == pref_of(
        prefs,
        c.url@,
    ).0 {
        lemma_seq_le_trans(lower_of(a.title@), lower_of(b.title@), lower_of(c.title@));
    }
}

/// Look a URL up in the preference list.
fn pref_of_exec(prefs: &Vec<UserItemPrefs>, url: &String) -> (r: (bool, bool))
    ensures
        r == pref_of(prefs@, url@),
{
    let n = prefs.len();
    let mut i: usize = 0;
    assert(prefs@.skip(0) =~= prefs@);
    while i < n
        invariant
            i <= n,
            n == prefs@.len(),
            pref_of(prefs@, url@) == pref_of(prefs@.skip(i as int), url@),
        decreases n - i,
    {
        assert(prefs@.skip(i as int)[0] == prefs@[i as int]);
        if prefs[i].url == *url {
            return (prefs[i].favorite, prefs[i].hidden);
        }
        assert(prefs@.skip(i as int).drop_first() =~= prefs@.skip(i + 1));
        i = i + 1;
    }
    assert(prefs@.skip(n as int).len() == 0);
    (false, false)
}

/// Decide the view order between two items.
fn item_le_exec(a: &M3UItem, b: &M3UItem, prefs: &Vec<UserItemPrefs>) -> (r: bool)
    ensures
        r == item_le(*a, *b, prefs@),
{
    let fa = pref_of_exec(prefs, &a.url).0;
    let fb = pref_of_exec(prefs, &b.url).0;
    if fa != fb {
        fa
    } else {
        let la = lowercase(a.title.as_str());
        let lb = lowercase(b.title.as_str());
        le_chars(&chars_of(la.as_str()), &chars_of(lb.as_str()))
    }
}

/// Copies of the items not hidden by the preferences, in order.
fn filter_items(items: &Vec<M3UItem>, prefs: &Vec<UserItemPrefs>) -> (r: Vec<M3UItem>)
    ensures
        r@ == visible_items(items@, prefs@),
{
    let n = items.len();
    let mut r: Vec<M3UItem> = Vec::new();
    let mut i: usize = 0;
    assert(visible_items(items@.subrange(0, 0), prefs@) =~= Seq::<M3UItem>::empty());
    while i < n
        invariant
            i <= n,
            n == items@.len(),
            r@ == visible_items(items@.subrange(0, i as int), prefs@),
        decreases n - i,
    {
        proof {
            assert(items@.subrange(0, i + 1).drop_last() =~= items@.subrange(0, i as int));
        }
        if !pref_of_exec(prefs, &items[i].url).1 {
            r.push(item_copy(&items[i]));
        }
        i = i + 1;
    }
    assert(items@.subrange(0, n as int) =~= items@);
    r
}

/// Sort item copies by the view order, by insertion.
fn sort_items(items: Vec<M3UItem>, prefs: &Vec<UserItemPrefs>) -> (r: Vec<M3UItem>)
    ensures
        r@.to_multiset() == items@.to_multiset(),
        items_sorted(r@, prefs@),
{
    broadcast use vstd::seq_lib::group_to_multiset_ensures;

    let n = items.len();
    let mut r: Vec<M3UItem> = Vec::new();
    let mut i: usize = 0;
    while i < n
        invariant
            i <= n,
            n == items@.len(),
            r@.to_multiset() == items@.subrange(0, i as int).to_multiset(),
            items_sorted(r@, prefs@),
        decreases n - i,
    {
        let x = item_copy(&items[i]);
        let ghost d = r@;
        let rn = r.len();
        let mut j: usize = 0;
        while j < rn && item_le_exec(&r[j], &x, prefs)
            invariant
                j <= rn,
                rn == r@.len(),
                r@ == d,
                forall|l: int| 0 <= l < j ==> item_le(d[l], x, prefs@),
            decreases rn - j,
        {
            j = j + 1;
        }
        proof {
            if j < rn {
                lemma_item_le_total(d[j as int], x, prefs@);
            }
        }
        r.insert(j, x);
        proof {
            let d2 = r@;
            assert(items@.subrange(0, i + 1).drop_last() =~= items@.subrange(0, i as int));
            assert(items@.subrange(0, i + 1) =~= items@.subrange(0, i as int).push(
                items@[i as int],
            ));
            assert forall|p: int, q: int| 0 <= p < q < d2.len() implies item_le(
                d2[p],
                d2[q],
                prefs@,
            ) by {
                if q < j {
                    assert(item_le(d[p], d[q], prefs@));
                } else if q == j {
                    assert(item_le(d[p], x, prefs@));
                } else {
                    if p < j {
                        if p < q - 1 {
                            assert(item_le(d[p], d[q - 1], prefs@));
                        }
                    } else if p == j {
                        assert(item_le(x, d[j as int], prefs@));
                        if j < q - 1 {
                            assert(item_le(d[j as int], d[q - 1], prefs@));
                            lemma_item_le_trans(x, d[j as int], d[q - 1], prefs@);
                        }
                    } else {
                        assert(item_le(d[p - 1], d[q - 1], prefs@));
                    }
                }
            }
        }
        i = i + 1;
    }
    assert(items@.subrange(0, n as int) =~= items@);
    r
}

impl CategoryNode {
    /// The bucket's display name.
    pub fn name(&self) -> (r: String)
        ensures
            r == self.name,
    {
        self.name.clone()
    }

    /// How many items the bucket holds.
    pub fn item_count(&self) -> (r: usize)
        ensures
            r == self.items@.len(),
    {
        self.items.len()
    }

    /// The bucket's items with hidden ones removed, favorites first,
    /// then case-insensitive title order.
    pub fn get_items(&self, user_prefs: &Vec<UserItemPrefs>) -> (r: Vec<M3UItem>)
        ensures
            r@.to_multiset() == visible_items(self.items@, user_prefs@).to_multiset(),
            items_sorted(r@, user_prefs@),
    {
        let kept = filter_items(&self.items, user_prefs);
        sort_items(kept, user_prefs)
    }
}

/// Index of the first node named `name` at or after `i`, if any.
pub open spec fn find_named_from(nodes: Seq<CategoryNode>, name: Seq<char>, i: int) -> Option<int>
    decreases nodes.len() - i,
{
    if 0 <= i < nodes.len() {
        if nodes[i].name@ == name {
            Some(i)
        } else {
            find_named_from(nodes, name, i + 1)
        }
    } else {
        None
    }
}

/// The first node with the given name, across movies, then series,
/// then live streams.
pub open spec fn find_node_spec(t: CategoryTree, name: Seq<char>) -> Option<CategoryNode> {
    match find_named_from(t.movies@, name, 0) {
        Some(i) => Some(t.movies@[i]),
        None => match find_named_from(t.series@, name, 0) {
            Some(i) => Some(t.series@[i]),
            None => match find_named_from(t.live_streams@, name, 0) {
                Some(i) => Some(t.live_streams@[i]),
                None => None,
            },
        },
    }
}

/// Find the first node of `nodes` named `name`.
fn find_in_vec(nodes: &Vec<CategoryNode>, name: &String) -> (r: Option<usize>)
    ensures
        match r {
            Some(j) => j < nodes@.len() && find_named_from(nodes@, name@, 0) == Some(j as int),
            None => find_named_from(nodes@, name@, 0) is None,
        },
{
    let n = nodes.len();
    let mut i: usize = 0;
    while i < n
        invariant
            i <= n,
            n == nodes@.len(),
            find_named_from(nodes@, name@, 0) == find_named_from(nodes@, name@, i as int),
        decreases n - i,
    {
        if nodes[i].name == *name {
            return Some(i);
        }
        i = i + 1;
    }
    None
}

/// The items of `items` whose lowercased title contains `ql`, in order.
pub open spec fn matches_in(items: Seq<M3UItem>, ql: Seq<char>) -> Seq<M3UItem>
    decreases items.len(),
{
    if items.len() == 0 {
        Seq::empty()
    } else {
        let rest = matches_in(items.drop_last(), ql);
        if contains_sub(lower_of(items.last().title@), ql) {
            rest.push(items.last())
        } else {
            rest
        }
    }
}

/// The matches of every node of `nodes`, in node order.
pub open spec fn search_nodes(nodes: Seq<CategoryNode>, ql: Seq<char>) -> Seq<M3UItem>
    decreases nodes.len(),
{
    if nodes.len() == 0 {
        Seq::empty()
    } else {
        search_nodes(nodes.drop_last(), ql) + matches_in(nodes.last().items@, ql)
    }
}

/// Append the matches of `items` to `out`.
fn matches_into(items: &Vec<M3UItem>, ql: &Vec<char>, out: &mut Vec<M3UItem>)
    ensures
        final (out)@ == old(out)@ + matches_in(items@, ql@),
{
    let n = items.len();
    let mut i: usize = 0;
    assert(matches_in(items@.subrange(0, 0), ql@) =~= Seq::<M3UItem>::empty());
    assert(out@ =~= old(out)@ + matches_in(items@.subrange(0, 0), ql@));
    while i < n
        invariant
            i <= n,
            n == items@.len(),
            out@ == old(out)@ + matches_in(items@.subrange(0, i as int), ql@),
        decreases n - i,
    {
        proof {
            assert(items@.subrange(0, i + 1).drop_last() =~= items@.subrange(0, i as int));
        }
        let lt = lowercase(items[i].title.as_str());
        let ltc = chars_of(lt.as_str());
        let hit = match find_sub(&ltc, ql, 0) {
            Some(_) => true,
            None => false,
        };
        if hit {
            let ghost pre = out@;
            out.push(item_copy(&items[i]));
            proof {
                assert(out@ =~= old(out)@ + matches_in(items@.subrange(0, i + 1), ql@));
            }
        }
        i = i + 1;
    }
    assert(items@.subrange(0, n as int) =~= items@);
}

/// Append the matches of every node of `nodes` to `out`.
fn search_into(nodes: &Vec<CategoryNode>, ql: &Vec<char>, out: &mut Vec<M3UItem>)
    ensures
        final (out)@ == old(out)@ + search_nodes(nodes@, ql@),
{
    let n = nodes.len();
    let mut i: usize = 0;
    assert(search_nodes(nodes@.subrange(0, 0), ql@) =~= Seq::<M3UItem>::empty());
    assert(out@ =~= old(out)@ + search_nodes(nodes@.subrange(0, 0), ql@));
    while i < n
        invariant
            i <= n,
            n == nodes@.len(),
            out@ == old(out)@ + search_nodes(nodes@.subrange(0, i as int), ql@),
        decreases n - i,
    {
        proof {
            assert(nodes@.subrange(0, i + 1).drop_last() =~= nodes@.subrange(0, i as int));
        }
        matches_into(&nodes[i].items, ql, out);
        proof {
            assert(out@ =~= old(out)@ + search_nodes(nodes@.subrange(0, i + 1), ql@));
        }
        i = i + 1;
    }
    assert(nodes@.subrange(0, n as int) =~= nodes@);
}

impl CategoryTree {
    /// Group classified items into the three collections.
    ///
    /// Each item lands in exactly one bucket of exactly one collection,
    /// keyed by its classification kind and display group; buckets keep
    /// first-seen order, and no item is duplicated or dropped, so the
    /// total count across all nodes equals the number of items given.
    pub fn build(items: Vec<M3UItem>) -> (r: CategoryTree)
        ensures
            nodes_group(r.movies@, items@, 0),
            nodes_group(r.series@, items@, 1),
            nodes_group(r.live_streams@, items@, 2),
            nodes_count(r.movies@) + nodes_count(r.series@) + nodes_count(r.live_streams@)
                == items@.len(),
    {
        let mut movies: Vec<CategoryNode> = Vec::new();
        let mut series: Vec<CategoryNode> = Vec::new();
        let mut live: Vec<CategoryNode> = Vec::new();
        let n = items.len();
        let mut i: usize = 0;
        while i < n
            invariant
                i <= n,
                nodes_group(movies@, items@.take(i as int), 0),
                nodes_group(series@, items@.take(i as int), 1),
                nodes_group(live@, items@.take(i as int), 2),
                nodes_count(movies@) == count_kind(items@.take(i as int), 0),
                nodes_count(series@) == count_kind(items@.take(i as int), 1),
                nodes_count(live@) == count_kind(items@.take(i as int), 2),
                count_kind(items@.take(i as int), 0) + count_kind(items@.take(i as int), 1)
                    + count_kind(items@.take(i as int), 2) == i,
            decreases n - i,
        {
            let item = item_copy(&items[i]);
            let gname: String = if item.group.as_str().unicode_len() == 0 {
                "Uncategorized".to_owned()
            } else {
                item.group.clone()
            };
            let ghost pref = items@.take(i as int);
            proof {
                assert(items@.take(i + 1).drop_last() =~= pref);
                assert(items@.take(i + 1) =~= pref.push(item));
            }
            match item.category {
                Category::Movie { .. } => {
                    insert_into(&mut movies, item, gname, Ghost(0), Ghost(pref));
                },
                Category::Series { .. } => {
                    insert_into(&mut series, item, gname, Ghost(1), Ghost(pref));
                },
                Category::LiveStream => {
                    insert_into(&mut live, item, gname, Ghost(2), Ghost(pref));
                },
            }
            proof {
                assert(groups_of(pref.push(item), 0) == groups_of(items@.take(i + 1), 0));
                assert(count_kind(items@.take(i + 1), 0) == count_kind(pref, 0) + if kind_idx(
                    items@[i as int].category,
                ) == 0 {
                    1int
                } else {
                    0int
                });
            }
            i = i + 1;
        }
        proof {
            assert(items@.take(n as int) =~= items@);
        }
        CategoryTree { movies, series, live_streams: live }
    }

    /// Movie buckets with hidden names removed, sticky names first,
    /// then case-insensitive name order.
    pub fn get_movies(&self, sticky_groups: &Vec<String>, hidden_groups: &Vec<String>) -> (r: Vec<
        CategoryNode,
    >)
        ensures
            nodes_data(r@).to_multiset() == visible(
                nodes_data(self.movies@),
                hidden_groups@,
            ).to_multiset(),
            nodes_sorted(nodes_data(r@), sticky_groups@),
    {
        sort_nodes(filter_nodes(&self.movies, hidden_groups), sticky_groups)
    }

    /// Series buckets with hidden names removed, sticky names first,
    /// then case-insensitive name order.
    pub fn get_series(&self, sticky_groups: &Vec<String>, hidden_groups: &Vec<String>) -> (r: Vec<
        CategoryNode,
    >)
        ensures
            nodes_data(r@).to_multiset() == visible(
                nodes_data(self.series@),
                hidden_groups@,
            ).to_multiset(),
            nodes_sorted(nodes_data(r@), sticky_groups@),
    {
        sort_nodes(filter_nodes(&self.series, hidden_groups), sticky_groups)
    }

    /// Live-stream buckets with hidden names removed, sticky names
    /// first, then case-insensitive name order.
    pub fn get_live_streams(&self, sticky_groups: &Vec<String>, hidden_groups: &Vec<String>) -> (r:
        Vec<CategoryNode>)
        ensures
            nodes_data(r@).to_multiset() == visible(
                nodes_data(self.live_streams@),
                hidden_groups@,
            ).to_multiset(),
            nodes_sorted(nodes_data(r@), sticky_groups@),
    {
        sort_nodes(filter_nodes(&self.live_streams, hidden_groups), sticky_groups)
    }

    /// All three filtered and sorted views at once.
    pub fn get_all_categories(&self, sticky_groups: &Vec<String>, hidden_groups: &Vec<String>) -> (
        r: CategoryTree)
        ensures
            nodes_data(r.movies@).to_multiset() == visible(
                nodes_data(self.movies@),
                hidden_groups@,
            ).to_multiset(),
            nodes_sorted(nodes_data(r.movies@), sticky_groups@),
            nodes_data(r.series@).to_multiset() == visible(
                nodes_data(self.series@),
                hidden_groups@,
            ).to_multiset(),
            nodes_sorted(nodes_data(r.series@), sticky_groups@),
            nodes_data(r.live_streams@).to_multiset() == visible(
                nodes_data(self.live_streams@),
                hidden_groups@,
            ).to_multiset(),
            nodes_sorted(nodes_data(r.live_streams@), sticky_groups@),
    {
        CategoryTree {
            movies: self.get_movies(sticky_groups, hidden_groups),
            series: self.get_series(sticky_groups, hidden_groups),
            live_streams: self.get_live_streams(sticky_groups, hidden_groups),
        }
    }

    /// The first bucket with the given name, across movies, then
    /// series, then live streams.
    pub fn find_category(&self, category_name: &str) -> (r: Option<CategoryNode>)
        ensures
            match r {
                Some(node) => find_node_spec(*self, category_name@) is Some && node_data(node)
                    == node_data(find_node_spec(*self, category_name@).unwrap()),
                None => find_node_spec(*self, category_name@) is None,
            },
    {
        let name = category_name.to_owned();
        match find_in_vec(&self.movies, &name) {
            Some(j) => Some(node_copy(&self.movies[j])),
            None => match find_in_vec(&self.series, &name) {
                Some(j) => Some(node_copy(&self.series[j])),
                None => match find_in_vec(&self.live_streams, &name) {
                    Some(j) => Some(node_copy(&self.live_streams[j])),
                    None => None,
                },
            },
        }
    }

    /// Every item whose title contains the query case-insensitively,
    /// in scan order: movies, then series, then live streams; within
    /// each, node order, then item order.
    pub fn search(&self, query: &str) -> (r: Vec<M3UItem>)
        ensures
            r@ == search_nodes(self.movies@, lower_of(query@)) + search_nodes(
                self.series@,
                lower_of(query@),
            ) + search_nodes(self.live_streams@, lower_of(query@)),
    {
        let lq = lowercase(query);
        let ql = chars_of(lq.as_str());
        let mut out: Vec<M3UItem> = Vec::new();
        assert(out@ =~= Seq::<M3UItem>::empty());
        search_into(&self.movies, &ql, &mut out);
        search_into(&self.series, &ql, &mut out);
        search_into(&self.live_streams, &ql, &mut out);
        proof {
            assert(Seq::<M3UItem>::empty() + search_nodes(self.movies@, ql@) =~= search_nodes(
                self.movies@,
                ql@,
            ));
        }
        out
    }
}

} // verus!
