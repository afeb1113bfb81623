//! The subscription trie: which clients subscribe to which topic filters,
//! and which of them a topic reaches.
use crate::packets::{granted, strings_view, ClientId, SubAckReturnCode, Subscription};
use crate::topic::{
    bytes_equal, has_wildcard_level, lemma_topic_matches_mqtt, mqtt_matches, hash_level, is_hash, is_plus, is_wildcard_level, level_matches, levels,
    lemma_levels_nonempty, plus_level, prefix_matches, reserved, split_levels, topic_matches,
    RESERVED_PREFIX,
};
use vstd::prelude::*;

verus! {

/// A subscription in the abstract: a client and the levels of its filter.
pub type SubscriptionEntry = (Seq<char>, Seq<Seq<u8>>);

/// The client identifiers that a vector holds.
pub open spec fn names(v: Seq<String>) -> Set<Seq<char>> {
    Set::new(|c: Seq<char>| exists|i: int| 0 <= i < v.len() && (#[trigger] v[i])@ == c)
}

/// No client identifier occurs twice.
pub open spec fn distinct_names(v: Seq<String>) -> bool {
    forall|i: int, j: int| 0 <= i < j < v.len() ==> (#[trigger] v[i])@ != (#[trigger] v[j])@
}

/// The clients whose subscriptions match a topic.
pub open spec fn subscribers(subs: Set<SubscriptionEntry>, t: Seq<Seq<u8>>) -> Set<Seq<char>> {
    Set::new(|c: Seq<char>| exists|f: Seq<Seq<u8>>| #[trigger] subs.contains((c, f)) && topic_matches(f, t))
}

/// The levels of a topic name or filter given as a string.
pub open spec fn str_levels(s: Seq<char>) -> Seq<Seq<u8>> {
    levels(vstd::utf8::encode_utf8(s))
}

/// A node of the trie: the level that labels the edge into it, its
/// children, and the clients whose filter ends here.
pub struct SubscriptionNode {
    pub segment: Vec<u8>,
    pub children: Vec<usize>,
    pub clients: Vec<ClientId>,
    pub parent: usize,
    /// The levels on the way from the root to this node.
    pub path: Ghost<Seq<Seq<u8>>>,
}

impl SubscriptionNode {
    /// A node with no label, children or clients: the root.
    pub fn new() -> (r: SubscriptionNode)
        ensures
            r.segment@.len() == 0,
            r.children@.len() == 0,
            r.clients@.len() == 0,
            r.path@ == Seq::<Seq<u8>>::empty(),
    {
        SubscriptionNode {
            segment: Vec::new(),
            children: Vec::new(),
            clients: Vec::new(),
            parent: 0,
            path: Ghost(Seq::empty()),
        }
    }
}

/// The trie, held as an arena of nodes; node 0 is the root.
pub struct SubscriptionsRepository {
    nodes: Vec<SubscriptionNode>,
}

/// A node at level `k` that the first `k` levels of `t` reach.
pub open spec fn frontier_path(p: Seq<Seq<u8>>, t: Seq<Seq<u8>>, k: int) -> bool {
    &&& p.len() == k
    &&& prefix_matches(p, t, k)
    &&& !(k >= 1 && reserved(t) && is_wildcard_level(p[0]))
}

/// A filter ending in `#` whose levels before it match the first levels
/// of `t`, at most `k` levels deep in all.
pub open spec fn hash_path(p: Seq<Seq<u8>>, t: Seq<Seq<u8>>, k: int) -> bool {
    &&& 1 <= p.len() <= k
    &&& p.last() == hash_level()
    &&& prefix_matches(p, t, p.len() - 1)
    &&& !(reserved(t) && is_wildcard_level(p[0]))
}

proof fn lemma_child_path(px: Seq<Seq<u8>>, s: Seq<u8>, t: Seq<Seq<u8>>, k: int)
    requires
        0 <= k < t.len(),
        px.len() == k,
    ensures
        frontier_path(px.push(s), t, k + 1) <==> frontier_path(px, t, k) && level_matches(s, t[k])
            && !(k == 0 && reserved(t) && is_wildcard_level(s)),
        (s == hash_level() && !(k == 0 && reserved(t)) && frontier_path(px, t, k)) ==> hash_path(
            px.push(s),
            t,
            k + 1,
        ),
        hash_path(px.push(s), t, k + 1) ==> frontier_path(px, t, k) && s == hash_level() && !(k
            == 0 && reserved(t)),
{
    let p = px.push(s);
    assert(p.drop_last() =~= px);
    assert forall|i: int| 0 <= i < k implies p[i] == px[i] by {}
    if k >= 1 {
        assert(p[0] == px[0]);
    } else {
        assert(p[0] == s);
    }
    if prefix_matches(p, t, k + 1) {
        assert(level_matches(p[k], t[k]));
        assert forall|i: int| 0 <= i < k implies level_matches(#[trigger] px[i], t[i]) by {
            assert(level_matches(p[i], t[i]));
        }
    }
    if prefix_matches(px, t, k) && level_matches(s, t[k]) {
        assert forall|i: int| 0 <= i < k + 1 implies level_matches(#[trigger] p[i], t[i]) by {
            if i < k {
                assert(level_matches(px[i], t[i]));
            }
        }
    }
    if k == 0 && reserved(t) && level_matches(s, t[0]) && !is_wildcard_level(s) {
    }
    if hash_path(p, t, k + 1) {
        assert forall|i: int| 0 <= i < k implies level_matches(#[trigger] px[i], t[i]) by {
            assert(level_matches(p[i], t[i]));
        }
    }
    if s == hash_level() && !(k == 0 && reserved(t)) && frontier_path(px, t, k) {
        assert forall|i: int| 0 <= i < k implies level_matches(#[trigger] p[i], t[i]) by {
            assert(level_matches(px[i], t[i]));
        }
    }
}

pub proof fn lemma_push_contains<A>(s: Seq<A>, x: A, y: A)
    ensures
        s.push(x).contains(y) <==> s.contains(y) || y == x,
{
    if s.push(x).contains(y) {
        let i = choose|i: int| 0 <= i < s.push(x).len() && s.push(x)[i] == y;
        if i < s.len() {
            assert(s[i] == y);
        }
    }
    if s.contains(y) {
        let i = choose|i: int| 0 <= i < s.len() && s[i] == y;
        assert(s.push(x)[i] == y);
    }
    if y == x {
        assert(s.push(x)[s.len() as int] == y);
    }
}

pub proof fn lemma_names_push(v: Seq<String>, x: String)
    ensures
        names(v.push(x)) == names(v).insert(x@),
{
    let w = v.push(x);
    assert forall|c: Seq<char>| names(w).contains(c) implies names(v).insert(x@).contains(c) by {
        let j = choose|j: int| 0 <= j < w.len() && (#[trigger] w[j])@ == c;
        if j < v.len() {
            assert(v[j] == w[j]);
        }
    }
    assert forall|c: Seq<char>| names(v).insert(x@).contains(c) implies names(w).contains(c) by {
        if c == x@ {
            assert(w[v.len() as int]@ == c);
        } else {
            let j = choose|j: int| 0 <= j < v.len() && (#[trigger] v[j])@ == c;
            assert(w[j] == v[j]);
        }
    }
    assert(names(w) =~= names(v).insert(x@));
}

/// Appends to `out` the clients of `from` that it does not hold yet.
fn add_names(out: &mut Vec<ClientId>, from: &Vec<ClientId>)
    requires
        distinct_names(old(out)@),
    ensures
        distinct_names(final(out)@),
        names(final(out)@) == names(old(out)@).union(names(from@)),
{
    let mut i: usize = 0;
    while i < from.len()
        invariant
            i <= from@.len(),
            distinct_names(out@),
            names(out@) == names(old(out)@).union(names(from@.subrange(0, i as int))),
        decreases from@.len() - i,
    {
        let ghost before = out@;
        if !contains_name(out, &from[i]) {
            out.push(from[i].clone());
            assert(out@.last()@ == from@[i as int]@);
            assert(names(out@) =~= names(before).insert(from@[i as int]@)) by {
                assert forall|c: Seq<char>| names(out@).contains(c) implies names(before).insert(
                    from@[i as int]@,
                ).contains(c) by {
                    let j = choose|j: int| 0 <= j < out@.len() && (#[trigger] out@[j])@ == c;
                    if j < before.len() {
                        assert(before[j] == out@[j]);
                    }
                }
                assert forall|c: Seq<char>| names(before).insert(from@[i as int]@).contains(
                    c,
                ) implies names(out@).contains(c) by {
                    if c == from@[i as int]@ {
                        assert(out@[before.len() as int]@ == c);
                    } else {
                        let j = choose|j: int| 0 <= j < before.len() && (#[trigger] before[j])@ == c;
                        assert(out@[j] == before[j]);
                    }
                }
            }
        }
        proof {
            let pre = from@.subrange(0, i as int);
            let nxt = from@.subrange(0, i + 1);
            assert(names(nxt) =~= names(pre).insert(from@[i as int]@)) by {
                assert forall|c: Seq<char>| names(nxt).contains(c) implies names(pre).insert(
                    from@[i as int]@,
                ).contains(c) by {
                    let j = choose|j: int| 0 <= j < nxt.len() && (#[trigger] nxt[j])@ == c;
                    if j < i {
                        assert(pre[j] == nxt[j]);
                    }
                }
                assert forall|c: Seq<char>| names(pre).insert(from@[i as int]@).contains(
                    c,
                ) implies names(nxt).contains(c) by {
                    if c == from@[i as int]@ {
                        assert(nxt[i as int]@ == c);
                    } else {
                        let j = choose|j: int| 0 <= j < pre.len() && (#[trigger] pre[j])@ == c;
                        assert(nxt[j] == pre[j]);
                    }
                }
            }
        }
        i = i + 1;
    }
    assert(from@.subrange(0, i as int) =~= from@);
}

fn contains_name(v: &Vec<ClientId>, c: &ClientId) -> (r: bool)
    ensures
        r == names(v@).contains(c@),
{
    let mut i: usize = 0;
    while i < v.len()
        invariant
            i <= v@.len(),
            forall|j: int| 0 <= j < i ==> (#[trigger] v@[j])@ != c@,
        decreases v@.len() - i,
    {
        if v[i] == *c {
            assert(v@[i as int]@ == c@);
            return true;
        }
        i = i + 1;
    }
    false
}

impl SubscriptionsRepository {
    /// The subscriptions held: each client with the levels of each filter
    /// that it subscribes to.
    pub closed spec fn view(&self) -> Set<SubscriptionEntry> {
        Set::new(
            |e: SubscriptionEntry|
                exists|j: int|
                    0 <= j < self.nodes@.len() && (#[trigger] self.nodes@[j]).path@ == e.1 && names(
                        self.nodes@[j].clients@,
                    ).contains(e.0),
        )
    }

    pub closed spec fn wf(&self) -> bool {
        let n = self.nodes@;
        &&& n.len() >= 1
        &&& n[0].path@ == Seq::<Seq<u8>>::empty()
        &&& forall|i: int, k: int|
            0 <= i < n.len() && 0 <= k < n[i].children@.len() ==> {
                let c = #[trigger] n[i].children@[k];
                &&& 0 < c < n.len()
                &&& n[c as int].parent == i
                &&& n[c as int].path@ == n[i].path@.push(n[c as int].segment@)
            }
        &&& forall|j: int|
            0 < j < n.len() ==> {
                let p = (#[trigger] n[j]).parent as int;
                &&& 0 <= p < n.len()
                &&& n[p].children@.contains(j as usize)
                &&& n[j].path@ == n[p].path@.push(n[j].segment@)
            }
        &&& forall|i: int, j: int|
            0 <= i < n.len() && 0 <= j < n.len() && i != j ==> (#[trigger] n[i]).path@ != (
            #[trigger] n[j]).path@
        &&& forall|i: int| 0 <= i < n.len() ==> distinct_names((#[trigger] n[i]).clients@)
    }

    pub fn new() -> (r: SubscriptionsRepository)
        ensures
            r.wf(),
            r@ == Set::<SubscriptionEntry>::empty(),
    {
        let mut nodes: Vec<SubscriptionNode> = Vec::new();
        nodes.push(SubscriptionNode::new());
        let r = SubscriptionsRepository { nodes };
        assert(r@ =~= Set::<SubscriptionEntry>::empty());
        r
    }
}

/// A child labelled `seg` of a frontier node at level `k` joins the next
/// frontier: its label matches the topic level, and no wildcard matches
/// the first level of a reserved topic (`first_reserved`).
pub open spec fn child_qualifies(seg: Seq<u8>, tk: Seq<u8>, first_reserved: bool) -> bool {
    level_matches(seg, tk) && !(first_reserved && is_wildcard_level(seg))
}

impl SubscriptionsRepository {
    pub closed spec fn node_names(&self, j: int) -> Set<Seq<char>> {
        names(self.nodes@[j].clients@)
    }

    pub closed spec fn node_count(&self) -> int {
        self.nodes@.len() as int
    }

    /// Follows the children of frontier node `x` one level down the topic:
    /// those that match `tk` join `next`, and the clients of a `#` child
    /// join `out`.
    fn collect_children(
        &self,
        x: usize,
        tk: &Vec<u8>,
        first_reserved: bool,
        next: &mut Vec<usize>,
        out: &mut Vec<ClientId>,
    )
        requires
            self.wf(),
            x < self.nodes@.len(),
            first_reserved ==> tk@.len() > 0 && tk@[0] == RESERVED_PREFIX,
            distinct_names(old(out)@),
        ensures
            forall|y: usize|
                #[trigger] final(next)@.contains(y) ==> old(next)@.contains(y) || (
                self.nodes@[x as int].children@.contains(y) && child_qualifies(
                    self.nodes@[y as int].segment@,
                    tk@,
                    first_reserved,
                )),
            forall|y: usize| #[trigger] old(next)@.contains(y) ==> final(next)@.contains(y),
            forall|y: usize|
                #[trigger] self.nodes@[x as int].children@.contains(y) && child_qualifies(
                    self.nodes@[y as int].segment@,
                    tk@,
                    first_reserved,
                ) ==> final(next)@.contains(y),
            distinct_names(final(out)@),
            forall|c: Seq<char>|
                #[trigger] names(final(out)@).contains(c) ==> names(old(out)@).contains(c) || exists|
                    y: usize,
                |
                    self.nodes@[x as int].children@.contains(y) && self.nodes@[y as int].segment@
                        == hash_level() && !first_reserved && #[trigger] names(
                        self.nodes@[y as int].clients@,
                    ).contains(c),
            names(old(out)@).subset_of(names(final(out)@)),
            forall|y: usize|
                #[trigger] self.nodes@[x as int].children@.contains(y) && self.nodes@[y as int].segment@
                    == hash_level() && !first_reserved ==> names(
                    self.nodes@[y as int].clients@,
                ).subset_of(names(final(out)@)),
    {
        let node = &self.nodes[x];
        let mut b: usize = 0;
        while b < node.children.len()
            invariant
                self.wf(),
                x < self.nodes@.len(),
                node == self.nodes@[x as int],
                b <= node.children@.len(),
                first_reserved ==> tk@.len() > 0 && tk@[0] == RESERVED_PREFIX,
                distinct_names(out@),
                forall|y: usize|
                    #[trigger] next@.contains(y) ==> old(next)@.contains(y) || (
                    node.children@.contains(y) && child_qualifies(
                        self.nodes@[y as int].segment@,
                        tk@,
                        first_reserved,
                    )),
                forall|y: usize| #[trigger] old(next)@.contains(y) ==> next@.contains(y),
                forall|i: int|
                    0 <= i < b && child_qualifies(
                        self.nodes@[node.children@[i] as int].segment@,
                        tk@,
                        first_reserved,
                    ) ==> next@.contains(#[trigger] node.children@[i]),
                forall|c: Seq<char>|
                    #[trigger] names(out@).contains(c) ==> names(old(out)@).contains(c) || exists|
                        y: usize,
                    |
                        node.children@.contains(y) && self.nodes@[y as int].segment@ == hash_level()
                            && !first_reserved && #[trigger] names(
                            self.nodes@[y as int].clients@,
                        ).contains(c),
                names(old(out)@).subset_of(names(out@)),
                forall|i: int|
                    0 <= i < b && self.nodes@[node.children@[i] as int].segment@ == hash_level()
                        && !first_reserved ==> names(
                        self.nodes@[#[trigger] node.children@[i] as int].clients@,
                    ).subset_of(names(out@)),
            decreases node.children@.len() - b,
        {
            let y = node.children[b];
            assert(node.children@.contains(y));
            let child = &self.nodes[y];
            let seg = child.segment.as_slice();
            let ghost before_next = next@;
            let ghost before_out = out@;
            if bytes_equal(seg, tk.as_slice()) || (is_plus(seg) && !first_reserved) {
                proof {
                    if first_reserved && seg@ == tk@ {
                        assert(seg@[0] == RESERVED_PREFIX);
                        assert(!is_wildcard_level(seg@));
                    }
                }
                next.push(y);
                proof {
                    assert forall|y2: usize| true implies (#[trigger] next@.contains(y2)
                        <==> before_next.contains(y2) || y2 == y) by {
                        lemma_push_contains(before_next, y, y2);
                    }
                }
            } else {
                proof {
                    if first_reserved && seg@ == plus_level() {
                    }
                }
            }
            if is_hash(seg) && !first_reserved {
                add_names(out, &child.clients);
            }
            proof {
                assert forall|c: Seq<char>| #[trigger] names(out@).contains(c) implies names(
                    old(out)@,
                ).contains(c) || exists|y2: usize|
                    node.children@.contains(y2) && self.nodes@[y2 as int].segment@ == hash_level()
                        && !first_reserved && #[trigger] names(
                        self.nodes@[y2 as int].clients@,
                    ).contains(c) by {
                    if !names(before_out).contains(c) {
                        assert(names(self.nodes@[y as int].clients@).contains(c));
                    }
                }
                assert forall|i: int|
                    0 <= i < b + 1 && self.nodes@[node.children@[i] as int].segment@
                        == hash_level() && !first_reserved implies names(
                    self.nodes@[#[trigger] node.children@[i] as int].clients@,
                ).subset_of(names(out@)) by {
                    if i < b {
                        assert(names(before_out).subset_of(names(out@)));
                    }
                }
            }
            b = b + 1;
        }
        proof {
            assert forall|y: usize|
                #[trigger] self.nodes@[x as int].children@.contains(y) && child_qualifies(
                    self.nodes@[y as int].segment@,
                    tk@,
                    first_reserved,
                ) implies next@.contains(y) by {
                let i = choose|i: int| 0 <= i < node.children@.len() && node.children@[i] == y;
                assert(next@.contains(node.children@[i]));
            }
            assert forall|y: usize|
                #[trigger] self.nodes@[x as int].children@.contains(y) && self.nodes@[y as int].segment@
                    == hash_level() && !first_reserved implies names(
                    self.nodes@[y as int].clients@,
                ).subset_of(names(out@)) by {
                let i = choose|i: int| 0 <= i < node.children@.len() && node.children@[i] == y;
                assert(names(self.nodes@[node.children@[i] as int].clients@).subset_of(names(out@)));
            }
        }
    }
}

proof fn lemma_hash_child(px: Seq<Seq<u8>>, t: Seq<Seq<u8>>, k: int)
    requires
        1 <= k <= t.len(),
        frontier_path(px, t, k),
    ensures
        hash_path(px.push(hash_level()), t, k + 1),
{
    let p = px.push(hash_level());
    assert(p[0] == px[0]);
    assert forall|i: int| 0 <= i < k implies level_matches(#[trigger] p[i], t[i]) by {
        assert(p[i] == px[i]);
        assert(level_matches(px[i], t[i]));
    }
}

proof fn lemma_parent_of_last_level(px: Seq<Seq<u8>>, s: Seq<u8>, t: Seq<Seq<u8>>)
    requires
        px.len() == t.len() >= 1,
        hash_path(px.push(s), t, t.len() + 1 as int),
    ensures
        frontier_path(px, t, t.len() as int),
        s == hash_level(),
{
    let p = px.push(s);
    let k = t.len() as int;
    assert(p[0] == px[0]);
    assert(p.last() == s);
    assert forall|i: int| 0 <= i < k implies level_matches(#[trigger] px[i], t[i]) by {
        assert(p[i] == px[i]);
        assert(level_matches(p[i], t[i]));
    }
}

impl SubscriptionsRepository {
    /// Adds to `out` the clients of frontier node `x` at the last level,
    /// and those of its `#` child.
    fn collect_last(&self, x: usize, out: &mut Vec<ClientId>)
        requires
            self.wf(),
            x < self.nodes@.len(),
            distinct_names(old(out)@),
        ensures
            distinct_names(final(out)@),
            names(old(out)@).subset_of(names(final(out)@)),
            names(self.nodes@[x as int].clients@).subset_of(names(final(out)@)),
            forall|y: usize|
                #[trigger] self.nodes@[x as int].children@.contains(y) && self.nodes@[y as int].segment@
                    == hash_level() ==> names(self.nodes@[y as int].clients@).subset_of(
                    names(final(out)@),
                ),
            forall|c: Seq<char>|
                #[trigger] names(final(out)@).contains(c) ==> names(old(out)@).contains(c) || names(
                    self.nodes@[x as int].clients@,
                ).contains(c) || exists|y: usize|
                    self.nodes@[x as int].children@.contains(y) && self.nodes@[y as int].segment@
                        == hash_level() && #[trigger] names(self.nodes@[y as int].clients@).contains(c),
    {
        let node = &self.nodes[x];
        add_names(out, &node.clients);
        let ghost after_own = out@;
        let mut b: usize = 0;
        while b < node.children.len()
            invariant
                self.wf(),
                x < self.nodes@.len(),
                node == self.nodes@[x as int],
                b <= node.children@.len(),
                distinct_names(out@),
                names(after_own).subset_of(names(out@)),
                names(after_own) == names(old(out)@).union(names(node.clients@)),
                forall|i: int|
                    0 <= i < b && self.nodes@[node.children@[i] as int].segment@ == hash_level()
                        ==> names(self.nodes@[#[trigger] node.children@[i] as int].clients@).subset_of(
                        names(out@),
                    ),
                forall|c: Seq<char>|
                    #[trigger] names(out@).contains(c) ==> names(after_own).contains(c) || exists|
                        y: usize,
                    |
                        node.children@.contains(y) && self.nodes@[y as int].segment@ == hash_level()
                            && #[trigger] names(self.nodes@[y as int].clients@).contains(c),
            decreases node.children@.len() - b,
        {
            let y = node.children[b];
            assert(node.children@.contains(y));
            let child = &self.nodes[y];
            let ghost before_out = out@;
            if is_hash(child.segment.as_slice()) {
                add_names(out, &child.clients);
            }
            proof {
                assert forall|c: Seq<char>| #[trigger] names(out@).contains(c) implies names(
                    after_own,
                ).contains(c) || exists|y2: usize|
                    node.children@.contains(y2) && self.nodes@[y2 as int].segment@ == hash_level()
                        && #[trigger] names(self.nodes@[y2 as int].clients@).contains(c) by {
                    if !names(before_out).contains(c) {
                        assert(names(self.nodes@[y as int].clients@).contains(c));
                    }
                }
                assert forall|i: int|
                    0 <= i < b + 1 && self.nodes@[node.children@[i] as int].segment@
                        == hash_level() implies names(
                    self.nodes@[#[trigger] node.children@[i] as int].clients@,
                ).subset_of(names(out@)) by {
                    if i < b {
                        assert(names(before_out).subset_of(names(out@)));
                    }
                }
            }
            b = b + 1;
        }
        proof {
            assert forall|y: usize|
                #[trigger] self.nodes@[x as int].children@.contains(y) && self.nodes@[y as int].segment@
                    == hash_level() implies names(self.nodes@[y as int].clients@).subset_of(
                names(out@),
            ) by {
                let i = choose|i: int| 0 <= i < node.children@.len() && node.children@[i] == y;
                assert(names(self.nodes@[node.children@[i] as int].clients@).subset_of(names(out@)));
            }
        }
    }

    /// The clients whose subscriptions match `topic`, each once. The
    /// frontier of nodes that the topic's first levels reach is followed
    /// one level at a time; a `#` child on the way contributes its clients.
    pub fn subscribed_clients(&self, topic: &String) -> (r: Option<Vec<ClientId>>)
        requires
            self.wf(),
        ensures
            r matches Some(v) && names(v@) == subscribers(self@, str_levels(topic@)) && distinct_names(
                v@,
            ),
    {
        let t = split_levels(topic.as_str().as_bytes());
        let ghost tv = t@.map_values(|l: Vec<u8>| l@);
        let ghost n = self.nodes@;
        let node_count = self.nodes.len();
        assert(n.len() <= usize::MAX);
        proof {
            lemma_levels_nonempty(vstd::utf8::encode_utf8(topic@));
        }
        let first_reserved_topic = t[0].len() > 0 && t[0][0] == RESERVED_PREFIX;
        assert(tv[0] == t@[0]@);
        let mut frontier: Vec<usize> = Vec::new();
        frontier.push(0);
        proof {
            assert forall|j: int| 0 <= j < n.len() && frontier_path(n[j].path@, tv, 0) implies frontier@.contains(
                j as usize,
            ) by {
                if j != 0 {
                    assert(n[j].path@ != n[0].path@);
                }
                assert(frontier@[0] == 0);
            }
            assert forall|x: usize| #[trigger] frontier@.contains(x) implies x < n.len()
                && frontier_path(n[x as int].path@, tv, 0) by {
                lemma_push_contains(Seq::<usize>::empty(), 0, x);
            }
        }
        let mut out: Vec<ClientId> = Vec::new();
        let mut k: usize = 0;
        while k < t.len()
            invariant
                self.wf(),
                n == self.nodes@,
                n.len() <= usize::MAX,
                tv == t@.map_values(|l: Vec<u8>| l@),
                tv.len() >= 1,
                k <= tv.len(),
                first_reserved_topic == reserved(tv),
                forall|x: usize|
                    #[trigger] frontier@.contains(x) ==> x < n.len() && frontier_path(
                        n[x as int].path@,
                        tv,
                        k as int,
                    ),
                forall|j: int|
                    0 <= j < n.len() && frontier_path(#[trigger] n[j].path@, tv, k as int)
                        ==> frontier@.contains(j as usize),
                distinct_names(out@),
                forall|c: Seq<char>|
                    #[trigger] names(out@).contains(c) ==> exists|j: int|
                        0 <= j < n.len() && hash_path(n[j].path@, tv, k as int) && #[trigger] names(
                            n[j].clients@,
                        ).contains(c),
                forall|j: int, c: Seq<char>|
                    0 <= j < n.len() && hash_path(n[j].path@, tv, k as int) && #[trigger] names(
                        n[j].clients@,
                    ).contains(c) ==> names(out@).contains(c),
            decreases tv.len() - k,
        {
            let fr = k == 0 && first_reserved_topic;
            assert(tv[k as int] == t@[k as int]@);
            let mut next: Vec<usize> = Vec::new();
            let mut a: usize = 0;
            while a < frontier.len()
                invariant
                    self.wf(),
                    n == self.nodes@,
                    n.len() <= usize::MAX,
                    tv == t@.map_values(|l: Vec<u8>| l@),
                    tv.len() >= 1,
                    k < tv.len(),
                    fr == (k == 0 && reserved(tv)),
                    tv[k as int] == t@[k as int]@,
                    a <= frontier@.len(),
                    forall|x: usize|
                        #[trigger] frontier@.contains(x) ==> x < n.len() && frontier_path(
                            n[x as int].path@,
                            tv,
                            k as int,
                        ),
                    forall|j: int|
                        0 <= j < n.len() && frontier_path(#[trigger] n[j].path@, tv, k as int)
                            ==> frontier@.contains(j as usize),
                    forall|y: usize|
                        #[trigger] next@.contains(y) ==> y < n.len() && frontier_path(
                            n[y as int].path@,
                            tv,
                            k + 1,
                        ),
                    forall|i: int, y: usize|
                        0 <= i < a && #[trigger] n[frontier@[i] as int].children@.contains(y)
                            && child_qualifies(n[y as int].segment@, tv[k as int], fr)
                            ==> next@.contains(y),
                    distinct_names(out@),
                    forall|c: Seq<char>|
                        #[trigger] names(out@).contains(c) ==> exists|j: int|
                            0 <= j < n.len() && hash_path(n[j].path@, tv, k + 1) && #[trigger] names(
                                n[j].clients@,
                            ).contains(c),
                    forall|j: int, c: Seq<char>|
                        0 <= j < n.len() && hash_path(n[j].path@, tv, k as int) && #[trigger] names(
                            n[j].clients@,
                        ).contains(c) ==> names(out@).contains(c),
                    forall|i: int, y: usize|
                        0 <= i < a && #[trigger] n[frontier@[i] as int].children@.contains(y)
                            && n[y as int].segment@ == hash_level() && !fr ==> names(
                            n[y as int].clients@,
                        ).subset_of(names(out@)),
                decreases frontier@.len() - a,
            {
                let x = frontier[a];
                assert(frontier@.contains(x));
                let ghost old_next = next@;
                let ghost old_out = out@;
                self.collect_children(x, &t[k], fr, &mut next, &mut out);
                proof {
                    assert forall|y: usize| #[trigger] next@.contains(y) implies y < n.len()
                        && frontier_path(n[y as int].path@, tv, k + 1) by {
                        if !old_next.contains(y) {
                            assert(n[x as int].children@.contains(y));
                            let kk = choose|kk: int|
                                0 <= kk < n[x as int].children@.len() && n[x as int].children@[kk]
                                    == y;
                            assert(n[x as int].children@[kk] == y);
                            lemma_child_path(n[x as int].path@, n[y as int].segment@, tv, k as int);
                        }
                    }
                    assert forall|c: Seq<char>| #[trigger] names(out@).contains(c) implies exists|
                        j: int,
                    |
                        0 <= j < n.len() && hash_path(n[j].path@, tv, k + 1) && #[trigger] names(
                            n[j].clients@,
                        ).contains(c) by {
                        if !names(old_out).contains(c) {
                            let y = choose|y: usize|
                                n[x as int].children@.contains(y) && n[y as int].segment@
                                    == hash_level() && !fr && #[trigger] names(
                                    n[y as int].clients@,
                                ).contains(c);
                            let kk = choose|kk: int|
                                0 <= kk < n[x as int].children@.len() && n[x as int].children@[kk]
                                    == y;
                            assert(n[x as int].children@[kk] == y);
                            lemma_child_path(n[x as int].path@, n[y as int].segment@, tv, k as int);
                            assert(hash_path(n[y as int].path@, tv, k + 1));
                        } else {
                            let j = choose|j: int|
                                0 <= j < n.len() && hash_path(n[j].path@, tv, k + 1) && #[trigger] names(
                                    n[j].clients@,
                                ).contains(c);
                        }
                    }
                    assert forall|i: int, y: usize|
                        0 <= i < a + 1 && #[trigger] n[frontier@[i] as int].children@.contains(y)
                            && child_qualifies(n[y as int].segment@, tv[k as int], fr) implies next@.contains(
                        y,
                    ) by {
                        if i < a {
                            assert(old_next.contains(y));
                        }
                    }
                    assert forall|i: int, y: usize|
                        0 <= i < a + 1 && #[trigger] n[frontier@[i] as int].children@.contains(y)
                            && n[y as int].segment@ == hash_level() && !fr implies names(
                            n[y as int].clients@,
                        ).subset_of(names(out@)) by {
                        if i < a {
                            assert(names(old_out).subset_of(names(out@)));
                        }
                    }
                    assert forall|j: int, c: Seq<char>|
                        0 <= j < n.len() && hash_path(n[j].path@, tv, k as int) && #[trigger] names(
                            n[j].clients@,
                        ).contains(c) implies names(out@).contains(c) by {
                        assert(names(old_out).contains(c));
                    }
                }
                a = a + 1;
            }
            proof {
                assert forall|j: int|
                    0 <= j < n.len() && frontier_path(#[trigger] n[j].path@, tv, k + 1) implies next@.contains(
                    j as usize,
                ) by {
                    assert(j != 0);
                    let p = n[j].parent as int;
                    assert(0 <= p < n.len() && n[p].children@.contains(j as usize));
                    assert(n[j].path@ == n[p].path@.push(n[j].segment@));
                    lemma_child_path(n[p].path@, n[j].segment@, tv, k as int);
                    assert(child_qualifies(n[j].segment@, tv[k as int], fr));
                    assert(frontier_path(n[p].path@, tv, k as int));
                    assert(frontier@.contains(p as usize));
                    let i = choose|i: int| 0 <= i < frontier@.len() && frontier@[i] == p as usize;
                    assert(0 <= i < a);
                    assert(n[frontier@[i] as int].children@.contains(j as usize));
                    assert(child_qualifies(n[(j as usize) as int].segment@, tv[k as int], fr));
                }
                assert forall|j: int, c: Seq<char>|
                    0 <= j < n.len() && hash_path(n[j].path@, tv, k + 1) && #[trigger] names(
                        n[j].clients@,
                    ).contains(c) implies names(out@).contains(c) by {
                    if n[j].path@.len() == k + 1 {
                        assert(j != 0);
                        let p = n[j].parent as int;
                        assert(0 <= p < n.len() && n[p].children@.contains(j as usize));
                        assert(n[j].path@ == n[p].path@.push(n[j].segment@));
                        lemma_child_path(n[p].path@, n[j].segment@, tv, k as int);
                        assert(n[j].segment@ == hash_level() && !fr);
                        assert(frontier@.contains(p as usize));
                        let i = choose|i: int| 0 <= i < frontier@.len() && frontier@[i] == p as usize;
                        assert(n[frontier@[i] as int].children@.contains(j as usize));
                        assert(names(n[j].clients@).subset_of(names(out@)));
                    } else {
                        assert(hash_path(n[j].path@, tv, k as int));
                    }
                }
            }
            frontier = next;
            k = k + 1;
        }
        let ghost tn = tv.len() as int;
        let mut a: usize = 0;
        while a < frontier.len()
            invariant
                self.wf(),
                n == self.nodes@,
                n.len() <= usize::MAX,
                tv.len() >= 1,
                tn == tv.len(),
                a <= frontier@.len(),
                forall|x: usize|
                    #[trigger] frontier@.contains(x) ==> x < n.len() && frontier_path(
                        n[x as int].path@,
                        tv,
                        tn,
                    ),
                forall|j: int|
                    0 <= j < n.len() && frontier_path(#[trigger] n[j].path@, tv, tn)
                        ==> frontier@.contains(j as usize),
                distinct_names(out@),
                forall|c: Seq<char>|
                    #[trigger] names(out@).contains(c) ==> exists|j: int|
                        0 <= j < n.len() && topic_matches(n[j].path@, tv) && #[trigger] names(
                            n[j].clients@,
                        ).contains(c),
                forall|j: int, c: Seq<char>|
                    0 <= j < n.len() && hash_path(n[j].path@, tv, tn) && #[trigger] names(
                        n[j].clients@,
                    ).contains(c) ==> names(out@).contains(c),
                forall|i: int|
                    0 <= i < a ==> names(n[#[trigger] frontier@[i] as int].clients@).subset_of(
                        names(out@),
                    ),
                forall|i: int, y: usize|
                    0 <= i < a && #[trigger] n[frontier@[i] as int].children@.contains(y)
                        && n[y as int].segment@ == hash_level() ==> names(
                        n[y as int].clients@,
                    ).subset_of(names(out@)),
            decreases frontier@.len() - a,
        {
            let x = frontier[a];
            assert(frontier@.contains(x));
            let ghost old_out = out@;
            self.collect_last(x, &mut out);
            proof {
                assert forall|c: Seq<char>| #[trigger] names(out@).contains(c) implies exists|j: int|
                    0 <= j < n.len() && topic_matches(n[j].path@, tv) && #[trigger] names(
                        n[j].clients@,
                    ).contains(c) by {
                    if names(old_out).contains(c) {
                    } else if names(n[x as int].clients@).contains(c) {
                        assert(topic_matches(n[x as int].path@, tv));
                    } else {
                        let y = choose|y: usize|
                            n[x as int].children@.contains(y) && n[y as int].segment@
                                == hash_level() && #[trigger] names(n[y as int].clients@).contains(c);
                        let kk = choose|kk: int|
                            0 <= kk < n[x as int].children@.len() && n[x as int].children@[kk] == y;
                        assert(n[x as int].children@[kk] == y);
                        lemma_hash_child(n[x as int].path@, tv, tn);
                        assert(n[y as int].path@ == n[x as int].path@.push(hash_level()));
                        assert(topic_matches(n[y as int].path@, tv));
                    }
                }
                assert forall|i: int| 0 <= i < a + 1 implies names(
                    n[#[trigger] frontier@[i] as int].clients@,
                ).subset_of(names(out@)) by {
                    if i < a {
                        assert(names(old_out).subset_of(names(out@)));
                    }
                }
                assert forall|i: int, y: usize|
                    0 <= i < a + 1 && #[trigger] n[frontier@[i] as int].children@.contains(y)
                        && n[y as int].segment@ == hash_level() implies names(
                        n[y as int].clients@,
                    ).subset_of(names(out@)) by {
                    if i < a {
                        assert(names(old_out).subset_of(names(out@)));
                    }
                }
                assert forall|j: int, c: Seq<char>|
                    0 <= j < n.len() && hash_path(n[j].path@, tv, tn) && #[trigger] names(
                        n[j].clients@,
                    ).contains(c) implies names(out@).contains(c) by {
                    assert(names(old_out).contains(c));
                }
            }
            a = a + 1;
        }
        proof {
            assert(tv == str_levels(topic@));
            assert forall|c: Seq<char>| names(out@).contains(c) implies subscribers(self@, tv).contains(c) by {
                let j = choose|j: int|
                    0 <= j < n.len() && topic_matches(n[j].path@, tv) && #[trigger] names(
                        n[j].clients@,
                    ).contains(c);
                assert(self@.contains((c, n[j].path@)));
            }
            assert forall|c: Seq<char>| subscribers(self@, tv).contains(c) implies names(out@).contains(c) by {
                let f = choose|f: Seq<Seq<u8>>| #[trigger] self@.contains((c, f)) && topic_matches(f, tv);
                let j = choose|j: int|
                    0 <= j < n.len() && (#[trigger] n[j]).path@ == f && names(n[j].clients@).contains(c);
                if f.len() == tv.len() && prefix_matches(f, tv, f.len() as int) {
                    assert(frontier_path(f, tv, tn));
                    assert(frontier@.contains(j as usize));
                    let i = choose|i: int| 0 <= i < frontier@.len() && frontier@[i] == j as usize;
                    assert(names(n[frontier@[i] as int].clients@).subset_of(names(out@)));
                } else if f.len() <= tv.len() {
                    assert(hash_path(f, tv, tn));
                } else {
                    assert(j != 0);
                    let p = n[j].parent as int;
                    assert(0 <= p < n.len() && n[p].children@.contains(j as usize));
                    assert(n[j].path@ == n[p].path@.push(n[j].segment@));
                    assert(hash_path(f, tv, tn + 1));
                    lemma_parent_of_last_level(n[p].path@, n[j].segment@, tv);
                    assert(frontier@.contains(p as usize));
                    let i = choose|i: int| 0 <= i < frontier@.len() && frontier@[i] == p as usize;
                    assert(n[frontier@[i] as int].children@.contains(j as usize));
                    assert(names(n[j].clients@).subset_of(names(out@)));
                }
            }
            assert(names(out@) =~= subscribers(self@, str_levels(topic@)));
        }
        Some(out)
    }
}

/// `out` without the client `c`.
fn without_name(v: &Vec<ClientId>, c: &ClientId) -> (r: Vec<ClientId>)
    requires
        distinct_names(v@),
    ensures
        distinct_names(r@),
        names(r@) == names(v@).remove(c@),
{
    let mut r: Vec<ClientId> = Vec::new();
    let mut i: usize = 0;
    while i < v.len()
        invariant
            i <= v@.len(),
            distinct_names(v@),
            distinct_names(r@),
            names(r@) == names(v@.subrange(0, i as int)).remove(c@),
            forall|k: int| 0 <= k < r@.len() ==> exists|m: int| 0 <= m < i && (#[trigger] r@[k])@ == v@[m]@,
        decreases v@.len() - i,
    {
        let ghost before = r@;
        let ghost pre = v@.subrange(0, i as int);
        let ghost nxt = v@.subrange(0, i + 1);
        if v[i] != *c {
            r.push(v[i].clone());
            proof {
                assert forall|a: int, b: int| 0 <= a < b < r@.len() implies (#[trigger] r@[a])@ != (
                #[trigger] r@[b])@ by {
                    if b == r@.len() - 1 {
                        let m = choose|m: int| 0 <= m < i && (#[trigger] before[a])@ == v@[m]@;
                        assert(r@[a] == before[a]);
                        assert(v@[m]@ != v@[i as int]@);
                    } else {
                        assert(r@[a] == before[a] && r@[b] == before[b]);
                    }
                }
            }
        }
        proof {
            assert(names(nxt) =~= names(pre).insert(v@[i as int]@)) by {
                assert forall|x: Seq<char>| names(nxt).contains(x) implies names(pre).insert(
                    v@[i as int]@,
                ).contains(x) by {
                    let j = choose|j: int| 0 <= j < nxt.len() && (#[trigger] nxt[j])@ == x;
                    if j < i {
                        assert(pre[j] == nxt[j]);
                    }
                }
                assert forall|x: Seq<char>| names(pre).insert(v@[i as int]@).contains(
                    x,
                ) implies names(nxt).contains(x) by {
                    if x == v@[i as int]@ {
                        assert(nxt[i as int]@ == x);
                    } else {
                        let j = choose|j: int| 0 <= j < pre.len() && (#[trigger] pre[j])@ == x;
                        assert(nxt[j] == pre[j]);
                    }
                }
            }
            assert(names(r@) =~= names(nxt).remove(c@)) by {
                assert forall|x: Seq<char>| names(r@).contains(x) implies names(nxt).remove(c@).contains(x) by {
                    let j = choose|j: int| 0 <= j < r@.len() && (#[trigger] r@[j])@ == x;
                    if j < before.len() {
                        assert(r@[j] == before[j]);
                        assert(names(before).contains(x));
                    }
                }
                assert forall|x: Seq<char>| names(nxt).remove(c@).contains(x) implies names(r@).contains(x) by {
                    if x == v@[i as int]@ {
                        assert(r@[r@.len() - 1]@ == x);
                    } else {
                        assert(names(before).contains(x));
                        let j = choose|j: int| 0 <= j < before.len() && (#[trigger] before[j])@ == x;
                        assert(r@[j] == before[j]);
                    }
                }
            }
            assert forall|k: int| 0 <= k < r@.len() implies exists|m: int| 0 <= m < i + 1 && (#[trigger] r@[k])@ == v@[m]@ by {
                if k < before.len() {
                    assert(r@[k] == before[k]);
                    let m = choose|m: int| 0 <= m < i && (#[trigger] before[k])@ == v@[m]@;
                } else {
                    assert(r@[k]@ == v@[i as int]@);
                }
            }
        }
        i = i + 1;
    }
    assert(v@.subrange(0, i as int) =~= v@);
    r
}

impl SubscriptionsRepository {
    /// The child of `x` labelled `seg`, created if there is none.
    fn child_for(&mut self, x: usize, seg: &Vec<u8>) -> (y: usize)
        requires
            old(self).wf(),
            x < old(self).nodes@.len(),
        ensures
            final(self).wf(),
            final(self)@ == old(self)@,
            y < final(self).nodes@.len(),
            final(self).nodes@[y as int].path@ == old(self).nodes@[x as int].path@.push(seg@),
            old(self).nodes@.len() <= final(self).nodes@.len(),
            forall|j: int|
                0 <= j < old(self).nodes@.len() ==> (#[trigger] final(self).nodes@[j]).path@ == old(
                    self,
                ).nodes@[j].path@,
    {
        let ghost n = self.nodes@;
        let count = self.nodes.len();
        let mut b: usize = 0;
        while b < self.nodes[x].children.len()
            invariant
                self.nodes@ == n,
                self.wf(),
                x < n.len(),
                count == n.len(),
                b <= n[x as int].children@.len(),
                forall|i: int| 0 <= i < b ==> n[n[x as int].children@[i] as int].segment@ != seg@,
            decreases n[x as int].children@.len() - b,
        {
            let y = self.nodes[x].children[b];
            if bytes_equal(self.nodes[y].segment.as_slice(), seg.as_slice()) {
                assert(n[x as int].children@[b as int] == y);
                return y;
            }
            b = b + 1;
        }
        let ghost new_path = n[x as int].path@.push(seg@);
        proof {
            assert forall|j: int| 0 <= j < n.len() implies (#[trigger] n[j]).path@ != new_path by {
                if n[j].path@ == new_path {
                    assert(j != 0);
                    let p = n[j].parent as int;
                    assert(n[j].path@ == n[p].path@.push(n[j].segment@));
                    assert(n[p].path@ =~= new_path.drop_last());
                    assert(n[x as int].path@ =~= new_path.drop_last());
                    assert(p == x);
                    let i = choose|i: int| 0 <= i < n[x as int].children@.len() && n[x as int].children@[i] == j as usize;
                    assert(n[j].segment@ == new_path.last());
                }
            }
        }
        let node = SubscriptionNode {
            segment: seg.clone(),
            children: Vec::new(),
            clients: Vec::new(),
            parent: x,
            path: Ghost(new_path),
        };
        self.nodes.push(node);
        self.nodes[x].children.push(count);
        proof {
            let m = self.nodes@;
            assert(m.len() == n.len() + 1);
            assert forall|j: int| 0 <= j < n.len() implies (#[trigger] m[j]).path@ == n[j].path@ && m[j].parent == n[j].parent && m[j].clients@ == n[j].clients@ && m[j].segment@ == n[j].segment@ && (j != x ==> m[j].children@ == n[j].children@) by {}
            assert(m[x as int].children@ == n[x as int].children@.push(count));
            assert(m[count as int].segment@ == seg@);
            assert forall|i: int, k: int|
                0 <= i < m.len() && 0 <= k < m[i].children@.len() implies {
                    let c = #[trigger] m[i].children@[k];
                    &&& 0 < c < m.len()
                    &&& m[c as int].parent == i
                    &&& m[c as int].path@ == m[i].path@.push(m[c as int].segment@)
                } by {
                if i == x && k == n[x as int].children@.len() {
                } else if i < n.len() {
                    assert(m[i].children@[k] == n[i].children@[k]);
                }
            }
            assert forall|j: int| 0 < j < m.len() implies {
                let p = (#[trigger] m[j]).parent as int;
                &&& 0 <= p < m.len()
                &&& m[p].children@.contains(j as usize)
                &&& m[j].path@ == m[p].path@.push(m[j].segment@)
            } by {
                let p = m[j].parent as int;
                if j == count {
                    assert(m[x as int].children@[n[x as int].children@.len() as int] == count);
                } else {
                    assert(n[p].children@.contains(j as usize));
                    let i = choose|i: int| 0 <= i < n[p].children@.len() && n[p].children@[i] == j as usize;
                    assert(m[p].children@[i] == j as usize);
                }
            }
            assert forall|i: int, j: int|
                0 <= i < m.len() && 0 <= j < m.len() && i != j implies (#[trigger] m[i]).path@ != (
                #[trigger] m[j]).path@ by {
                if i < n.len() && j < n.len() {
                    assert(n[i].path@ != n[j].path@);
                } else if i < n.len() {
                    assert(n[i].path@ != new_path);
                } else {
                    assert(n[j].path@ != new_path);
                }
            }
            assert forall|i: int| 0 <= i < m.len() implies distinct_names((#[trigger] m[i]).clients@) by {
                if i < n.len() {
                    assert(distinct_names(n[i].clients@));
                }
            }
            assert(self@ =~= old(self)@) by {
                assert forall|e: SubscriptionEntry| self@.contains(e) implies old(self)@.contains(e) by {
                    let j = choose|j: int|
                        0 <= j < m.len() && (#[trigger] m[j]).path@ == e.1 && names(m[j].clients@).contains(e.0);
                    if j == count {
                        assert(m[j].clients@.len() == 0);
                    } else {
                        assert(n[j].path@ == e.1);
                    }
                }
                assert forall|e: SubscriptionEntry| old(self)@.contains(e) implies self@.contains(e) by {
                    let j = choose|j: int|
                        0 <= j < n.len() && (#[trigger] n[j]).path@ == e.1 && names(n[j].clients@).contains(e.0);
                    assert(m[j].path@ == e.1);
                }
            }
        }
        count
    }

    /// Sets the clients of node `x`, which the subscriptions then follow.
    fn set_clients(&mut self, x: usize, clients: Vec<ClientId>)
        requires
            old(self).wf(),
            x < old(self).nodes@.len(),
            distinct_names(clients@),
        ensures
            final(self).wf(),
            final(self).nodes@.len() == old(self).nodes@.len(),
            forall|j: int|
                0 <= j < old(self).nodes@.len() ==> (#[trigger] final(self).nodes@[j]).path@ == old(
                    self,
                ).nodes@[j].path@,
            final(self).nodes@[x as int].clients@ == clients@,
            forall|j: int|
                0 <= j < old(self).nodes@.len() && j != x ==> (#[trigger] final(self).nodes@[j]).clients@
                    == old(self).nodes@[j].clients@,
    {
        let ghost n = self.nodes@;
        self.nodes[x].clients = clients;
        proof {
            let m = self.nodes@;
            assert forall|j: int| 0 <= j < n.len() implies (#[trigger] m[j]).path@ == n[j].path@ && m[j].parent == n[j].parent && m[j].children@ == n[j].children@ && m[j].segment@ == n[j].segment@ by {}
            assert forall|i: int, j: int|
                0 <= i < m.len() && 0 <= j < m.len() && i != j implies (#[trigger] m[i]).path@ != (
                #[trigger] m[j]).path@ by {
                assert(n[i].path@ != n[j].path@);
            }
            assert forall|i: int| 0 <= i < m.len() implies distinct_names((#[trigger] m[i]).clients@) by {
                if i != x {
                    assert(distinct_names(n[i].clients@));
                }
            }
            assert forall|j: int| 0 < j < m.len() implies {
                let p = (#[trigger] m[j]).parent as int;
                &&& 0 <= p < m.len()
                &&& m[p].children@.contains(j as usize)
                &&& m[j].path@ == m[p].path@.push(m[j].segment@)
            } by {
                let p = n[j].parent as int;
                assert(n[p].children@.contains(j as usize));
            }
            assert forall|i: int, k: int|
                0 <= i < m.len() && 0 <= k < m[i].children@.len() implies {
                    let c = #[trigger] m[i].children@[k];
                    &&& 0 < c < m.len()
                    &&& m[c as int].parent == i
                    &&& m[c as int].path@ == m[i].path@.push(m[c as int].segment@)
                } by {
                assert(m[i].children@[k] == n[i].children@[k]);
            }
        }
    }

    /// After the change of node `x`'s clients, the subscriptions differ
    /// only in those with `x`'s filter.
    proof fn lemma_view_after_set_clients(old_repo: &Self, new_repo: &Self, x: int)
        requires
            old_repo.wf(),
            new_repo.wf(),
            0 <= x < old_repo.nodes@.len(),
            new_repo.nodes@.len() == old_repo.nodes@.len(),
            forall|j: int|
                0 <= j < old_repo.nodes@.len() ==> (#[trigger] new_repo.nodes@[j]).path@
                    == old_repo.nodes@[j].path@,
            forall|j: int|
                0 <= j < old_repo.nodes@.len() && j != x ==> (#[trigger] new_repo.nodes@[j]).clients@
                    == old_repo.nodes@[j].clients@,
        ensures
            forall|e: SubscriptionEntry|
                e.1 != old_repo.nodes@[x].path@ ==> (#[trigger] new_repo@.contains(e)
                    <==> old_repo@.contains(e)),
            forall|c: Seq<char>|
                #[trigger] new_repo@.contains((c, old_repo.nodes@[x].path@)) <==> names(
                    new_repo.nodes@[x].clients@,
                ).contains(c),
    {
        let n = old_repo.nodes@;
        let m = new_repo.nodes@;
        assert forall|e: SubscriptionEntry| e.1 != n[x].path@ implies (#[trigger] new_repo@.contains(e)
            <==> old_repo@.contains(e)) by {
            if new_repo@.contains(e) {
                let j = choose|j: int|
                    0 <= j < m.len() && (#[trigger] m[j]).path@ == e.1 && names(m[j].clients@).contains(e.0);
                assert(n[j].path@ == e.1);
            }
            if old_repo@.contains(e) {
                let j = choose|j: int|
                    0 <= j < n.len() && (#[trigger] n[j]).path@ == e.1 && names(n[j].clients@).contains(e.0);
                assert(m[j].path@ == e.1);
            }
        }
        assert forall|c: Seq<char>| #[trigger] new_repo@.contains((c, n[x].path@)) <==> names(
            m[x].clients@,
        ).contains(c) by {
            if new_repo@.contains((c, n[x].path@)) {
                let j = choose|j: int|
                    0 <= j < m.len() && (#[trigger] m[j]).path@ == n[x].path@ && names(m[j].clients@).contains(c);
                if j != x {
                    assert(m[j].path@ != m[x].path@);
                }
            }
            if names(m[x].clients@).contains(c) {
                assert(m[x].path@ == n[x].path@);
            }
        }
    }

    /// The node whose filter has the levels `lv`, created with its
    /// ancestors where missing.
    fn node_for(&mut self, lv: &Vec<Vec<u8>>) -> (y: usize)
        requires
            old(self).wf(),
        ensures
            final(self).wf(),
            final(self)@ == old(self)@,
            y < final(self).nodes@.len(),
            final(self).nodes@[y as int].path@ == lv@.map_values(|l: Vec<u8>| l@),
    {
        let ghost lvv = lv@.map_values(|l: Vec<u8>| l@);
        let mut cur: usize = 0;
        let mut i: usize = 0;
        assert(lvv.subrange(0, 0) =~= Seq::<Seq<u8>>::empty());
        while i < lv.len()
            invariant
                self.wf(),
                self@ == old(self)@,
                i <= lv@.len(),
                lvv == lv@.map_values(|l: Vec<u8>| l@),
                cur < self.nodes@.len(),
                self.nodes@[cur as int].path@ == lvv.subrange(0, i as int),
            decreases lv@.len() - i,
        {
            cur = self.child_for(cur, &lv[i]);
            assert(lvv.subrange(0, i + 1) =~= lvv.subrange(0, i as int).push(lv@[i as int]@));
            i = i + 1;
        }
        assert(lvv.subrange(0, i as int) =~= lvv);
        cur
    }

    /// Subscribes a client to a topic filter; the requested QoS is granted.
    pub fn subscribe(&mut self, client_id: &ClientId, subscription: &Subscription) -> (r:
        SubAckReturnCode)
        requires
            old(self).wf(),
        ensures
            final(self).wf(),
            final(self)@ == old(self)@.insert((client_id@, str_levels(subscription.topic@))),
            r == granted(subscription.qos),
    {
        let lv = split_levels(subscription.topic.as_str().as_bytes());
        let x = self.node_for(&lv);
        let ghost mid = *self;
        let mut clients = self.nodes[x].clients.clone();
        assert(clients@ =~= self.nodes@[x as int].clients@);
        if !contains_name(&clients, client_id) {
            let ghost before = clients@;
            clients.push(client_id.clone());
            proof {
                assert forall|a: int, b: int| 0 <= a < b < clients@.len() implies (#[trigger] clients@[a])@ != (
                #[trigger] clients@[b])@ by {
                    if b == clients@.len() - 1 {
                        assert(clients@[a] == before[a]);
                        assert(names(before).contains(before[a]@));
                    } else {
                        assert(clients@[a] == before[a] && clients@[b] == before[b]);
                    }
                }
                assert(names(clients@) =~= names(before).insert(client_id@)) by {
                    assert forall|c: Seq<char>| names(clients@).contains(c) implies names(before).insert(client_id@).contains(c) by {
                        let j = choose|j: int| 0 <= j < clients@.len() && (#[trigger] clients@[j])@ == c;
                        if j < before.len() {
                            assert(clients@[j] == before[j]);
                        }
                    }
                    assert forall|c: Seq<char>| names(before).insert(client_id@).contains(c) implies names(clients@).contains(c) by {
                        if c == client_id@ {
                            assert(clients@[before.len() as int]@ == c);
                        } else {
                            let j = choose|j: int| 0 <= j < before.len() && (#[trigger] before[j])@ == c;
                            assert(clients@[j] == before[j]);
                        }
                    }
                }
            }
        }
        assert(names(clients@) == names(mid.nodes@[x as int].clients@).insert(client_id@));
        self.set_clients(x, clients);
        proof {
            Self::lemma_view_after_set_clients(&mid, self, x as int);
            let key = mid.nodes@[x as int].path@;
            assert(key == str_levels(subscription.topic@));
            assert forall|c: Seq<char>| #[trigger] mid@.contains((c, key)) <==> names(mid.nodes@[x as int].clients@).contains(c) by {
                if mid@.contains((c, key)) {
                    let j = choose|j: int|
                        0 <= j < mid.nodes@.len() && (#[trigger] mid.nodes@[j]).path@ == key && names(mid.nodes@[j].clients@).contains(c);
                    if j != x {
                        assert(mid.nodes@[j].path@ != mid.nodes@[x as int].path@);
                    }
                }
            }
            assert(self@ =~= old(self)@.insert((client_id@, str_levels(subscription.topic@))));
        }
        SubAckReturnCode::granting(subscription.qos)
    }
}

/// The subscriptions of `c` to any of `topics`.
pub open spec fn entries_of(c: Seq<char>, topics: Seq<Seq<char>>) -> Set<SubscriptionEntry> {
    Set::new(
        |e: SubscriptionEntry|
            e.0 == c && exists|i: int| 0 <= i < topics.len() && e.1 == str_levels(#[trigger] topics[i]),
    )
}

/// Every subscription of `c`.
pub open spec fn entries_of_client(c: Seq<char>) -> Set<SubscriptionEntry> {
    Set::new(|e: SubscriptionEntry| e.0 == c)
}

impl SubscriptionsRepository {
    fn remove_from_node(&mut self, x: usize, c: &ClientId)
        requires
            old(self).wf(),
            x < old(self).nodes@.len(),
        ensures
            final(self).wf(),
            final(self)@ == old(self)@.remove((c@, old(self).nodes@[x as int].path@)),
            final(self).nodes@.len() == old(self).nodes@.len(),
            forall|j: int|
                0 <= j < old(self).nodes@.len() ==> (#[trigger] final(self).nodes@[j]).path@ == old(
                    self,
                ).nodes@[j].path@,
    {
        let ghost mid = *self;
        let clients = without_name(&self.nodes[x].clients, c);
        self.set_clients(x, clients);
        proof {
            Self::lemma_view_after_set_clients(&mid, self, x as int);
            let key = mid.nodes@[x as int].path@;
            assert forall|d: Seq<char>| #[trigger] mid@.contains((d, key)) <==> names(mid.nodes@[x as int].clients@).contains(d) by {
                if mid@.contains((d, key)) {
                    let j = choose|j: int|
                        0 <= j < mid.nodes@.len() && (#[trigger] mid.nodes@[j]).path@ == key && names(mid.nodes@[j].clients@).contains(d);
                    if j != x {
                        assert(mid.nodes@[j].path@ != mid.nodes@[x as int].path@);
                    }
                }
            }
            assert(self@ =~= old(self)@.remove((c@, key)));
        }
    }

    /// Removes the client's subscription to each of the topic filters; a
    /// filter that it does not subscribe to is left alone.
    pub fn unsubscribe(&mut self, client_id: &ClientId, topics: &Vec<String>)
        requires
            old(self).wf(),
        ensures
            final(self).wf(),
            final(self)@ == old(self)@.difference(entries_of(client_id@, strings_view(topics@))),
    {
        let mut i: usize = 0;
        while i < topics.len()
            invariant
                self.wf(),
                i <= topics@.len(),
                self@ == old(self)@.difference(
                    entries_of(client_id@, strings_view(topics@.subrange(0, i as int))),
                ),
            decreases topics@.len() - i,
        {
            let ghost before = self@;
            let lv = split_levels(topics[i].as_str().as_bytes());
            let x = self.node_for(&lv);
            let ghost key = self.nodes@[x as int].path@;
            assert(key == str_levels(topics@[i as int]@));
            self.remove_from_node(x, client_id);
            proof {
                let pre = strings_view(topics@.subrange(0, i as int));
                let nxt = strings_view(topics@.subrange(0, i + 1));
                assert(entries_of(client_id@, nxt) =~= entries_of(client_id@, pre).insert((client_id@, key))) by {
                    assert forall|e: SubscriptionEntry| entries_of(client_id@, nxt).contains(e) implies entries_of(client_id@, pre).insert((client_id@, key)).contains(e) by {
                        let k = choose|k: int| 0 <= k < nxt.len() && e.1 == str_levels(#[trigger] nxt[k]);
                        if k < i {
                            assert(pre[k] == nxt[k]);
                        }
                    }
                    assert forall|e: SubscriptionEntry| entries_of(client_id@, pre).insert((client_id@, key)).contains(e) implies entries_of(client_id@, nxt).contains(e) by {
                        if e == (client_id@, key) {
                            assert(nxt[i as int] == topics@[i as int]@);
                        } else {
                            let k = choose|k: int| 0 <= k < pre.len() && e.1 == str_levels(#[trigger] pre[k]);
                            assert(nxt[k] == pre[k]);
                        }
                    }
                }
                assert(self@ =~= old(self)@.difference(entries_of(client_id@, nxt)));
            }
            i = i + 1;
        }
        assert(topics@.subrange(0, i as int) =~= topics@);
        assert(strings_view(topics@.subrange(0, i as int)) =~= strings_view(topics@));
    }

    /// Removes every subscription of the client.
    fn remove_client(&mut self, client_id: &ClientId)
        requires
            old(self).wf(),
        ensures
            final(self).wf(),
            final(self)@ == old(self)@.difference(entries_of_client(client_id@)),
    {
        let ghost n = self.nodes@;
        let count = self.nodes.len();
        let mut j: usize = 0;
        while j < count
            invariant
                self.wf(),
                count == n.len(),
                self.nodes@.len() == n.len(),
                j <= count,
                forall|k: int| 0 <= k < n.len() ==> (#[trigger] self.nodes@[k]).path@ == n[k].path@,
                forall|e: SubscriptionEntry|
                    #[trigger] self@.contains(e) <==> old(self)@.contains(e) && !(e.0 == client_id@
                        && exists|k: int| 0 <= k < j && n[k].path@ == e.1),
            decreases count - j,
        {
            let ghost before = self@;
            self.remove_from_node(j, client_id);
            proof {
                assert forall|e: SubscriptionEntry|
                    #[trigger] self@.contains(e) <==> old(self)@.contains(e) && !(e.0 == client_id@
                        && exists|k: int| 0 <= k < j + 1 && n[k].path@ == e.1) by {
                    if e.0 == client_id@ && e.1 == n[j as int].path@ {
                        assert(!self@.contains(e));
                    } else if e.0 == client_id@ && exists|k: int| 0 <= k < j + 1 && n[k].path@ == e.1 {
                        let k = choose|k: int| 0 <= k < j + 1 && n[k].path@ == e.1;
                        assert(k < j);
                    }
                }
            }
            j = j + 1;
        }
        proof {
            assert forall|e: SubscriptionEntry| #[trigger] old(self)@.contains(e) && e.0 == client_id@ implies exists|k: int| 0 <= k < j && n[k].path@ == e.1 by {
                let k = choose|k: int|
                    0 <= k < n.len() && (#[trigger] n[k]).path@ == e.1 && names(n[k].clients@).contains(e.0);
            }
            assert(self@ =~= old(self)@.difference(entries_of_client(client_id@)));
        }
    }

    /// Forgets every subscription of a client whose session has ended.
    pub fn disconnected(&mut self, client_id: &ClientId)
        requires
            old(self).wf(),
        ensures
            final(self).wf(),
            final(self)@ == old(self)@.difference(entries_of_client(client_id@)),
    {
        self.remove_client(client_id);
    }

    /// Forgets every subscription of a client whose connection was lost.
    pub fn connections_lost(&mut self, client_id: &ClientId)
        requires
            old(self).wf(),
        ensures
            final(self).wf(),
            final(self)@ == old(self)@.difference(entries_of_client(client_id@)),
    {
        self.remove_client(client_id);
    }
}

/// For a topic name without wildcards, a client is among the subscribers
/// that the trie reports exactly when one of its filters matches the topic
/// under MQTT 3.1.1's rule.
pub proof fn lemma_subscribers_match_mqtt(subs: Set<SubscriptionEntry>, t: Seq<Seq<u8>>, c: Seq<char>)
    requires
        !has_wildcard_level(t),
    ensures
        subscribers(subs, t).contains(c) <==> exists|f: Seq<Seq<u8>>|
            #[trigger] subs.contains((c, f)) && mqtt_matches(f, t),
{
    if subscribers(subs, t).contains(c) {
        let f = choose|f: Seq<Seq<u8>>| #[trigger] subs.contains((c, f)) && topic_matches(f, t);
        lemma_topic_matches_mqtt(f, t);
    }
    if exists|f: Seq<Seq<u8>>| #[trigger] subs.contains((c, f)) && mqtt_matches(f, t) {
        let f = choose|f: Seq<Seq<u8>>| #[trigger] subs.contains((c, f)) && mqtt_matches(f, t);
        lemma_topic_matches_mqtt(f, t);
    }
}

impl SubscriptionsRepository {
    /// A client with no subscription left is in no node's client set.
    pub proof fn lemma_absent_everywhere(&self, c: Seq<char>)
        requires
            self.wf(),
            forall|f: Seq<Seq<u8>>| !#[trigger] self@.contains((c, f)),
        ensures
            forall|j: int| 0 <= j < self.node_count() ==> !#[trigger] self.node_names(j).contains(c),
    {
        assert forall|j: int| 0 <= j < self.node_count() implies !#[trigger] self.node_names(j).contains(c) by {
            if self.node_names(j).contains(c) {
                assert(self@.contains((c, self.nodes@[j].path@)));
            }
        }
    }
}

} // verus!
