//! Linked signals: values that stay in the slot where they were made and pass
//! what they are set to along their links.
//!
//! A [`SignalNet`] holds the signals, a [`Signal`] names one of them. Setting
//! a signal sets every signal that can be reached from it over links.

use std::marker::PhantomData;
use vstd::pervasive::cloned;
use vstd::prelude::*;

verus! {

/// One signal as the contracts see it.
pub struct NodeState<T> {
    /// The value, until the signal is removed.
    pub value: Option<T>,
    /// The signals that this one is linked to, oldest link first.
    pub next: Seq<nat>,
}

/// All signals of a net, by index.
#[verifier::ext_equal]
pub struct NetState<T> {
    pub nodes: Seq<NodeState<T>>,
}

impl<T> NetState<T> {
    /// The signal exists and was not removed.
    pub open spec fn live(self, i: nat) -> bool {
        i < self.nodes.len() && self.nodes[i as int].value is Some
    }

    /// The value of a live signal.
    pub open spec fn value(self, i: nat) -> T
        recommends
            self.live(i),
    {
        self.nodes[i as int].value->0
    }

    /// Every link names a signal of the net.
    pub open spec fn wf(self) -> bool {
        forall|i: int, k: int|
            0 <= i < self.nodes.len() && 0 <= k < self.nodes[i].next.len() ==> (
            #[trigger] self.nodes[i].next[k]) < self.nodes.len()
    }

    /// A link leads from `a` to `b`, and both are live.
    pub open spec fn edge(self, a: nat, b: nat) -> bool {
        self.live(a) && self.live(b) && self.nodes[a as int].next.contains(b)
    }

    /// `path` walks over links through live signals.
    pub open spec fn is_path(self, path: Seq<nat>) -> bool {
        &&& path.len() > 0
        &&& self.live(path[0])
        &&& forall|k: int| 0 <= k < path.len() - 1 ==> self.edge(#[trigger] path[k], path[k + 1])
    }

    /// `b` can be reached from `a`: it is `a` itself, live, or a walk over
    /// links leads there.
    pub open spec fn reaches(self, a: nat, b: nat) -> bool {
        exists|path: Seq<nat>| #[trigger] self.is_path(path) && path[0] == a && path.last() == b
    }

    /// The two nets have the same signals, live or removed, with the same
    /// links.
    pub open spec fn same_links(self, other: Self) -> bool {
        &&& self.nodes.len() == other.nodes.len()
        &&& forall|i: int|
            0 <= i < self.nodes.len() ==> (#[trigger] self.nodes[i]).next == other.nodes[i].next
                && (self.nodes[i].value is Some) == (other.nodes[i].value is Some)
    }
}

/// A live signal reaches itself.
pub proof fn lemma_reaches_itself<T>(s: NetState<T>, a: nat)
    requires
        s.live(a),
    ensures
        s.reaches(a, a),
{
    let path = seq![a];
    assert(s.is_path(path));
    assert(path[0] == a && path.last() == a);
}

/// What reaches the start of a link reaches its end.
pub proof fn lemma_reaches_over_edge<T>(s: NetState<T>, a: nat, b: nat, c: nat)
    requires
        s.reaches(a, b),
        s.edge(b, c),
    ensures
        s.reaches(a, c),
{
    let path = choose|path: Seq<nat>| #[trigger] s.is_path(path) && path[0] == a && path.last() == b;
    let longer = path.push(c);
    assert forall|k: int| 0 <= k < longer.len() - 1 implies s.edge(
        #[trigger] longer[k],
        longer[k + 1],
    ) by {
        if k < path.len() - 1 {
            assert(s.edge(path[k], path[k + 1]));
        }
    }
    assert(s.is_path(longer));
    assert(longer[0] == a && longer.last() == c);
}

/// A set of signals that holds the start of a walk and is closed under
/// links between live signals holds the whole walk.
proof fn lemma_closed_set_holds_path<T>(s: NetState<T>, marked: Seq<bool>, path: Seq<nat>, k: int)
    requires
        s.wf(),
        marked.len() == s.nodes.len(),
        s.is_path(path),
        marked[path[0] as int],
        forall|x: int, j: int|
            0 <= x < s.nodes.len() && marked[x] && 0 <= j < s.nodes[x].next.len() && s.live(
                #[trigger] s.nodes[x].next[j],
            ) ==> marked[s.nodes[x].next[j] as int],
        0 <= k < path.len(),
    ensures
        marked[path[k] as int],
    decreases k,
{
    if k > 0 {
        lemma_closed_set_holds_path(s, marked, path, k - 1);
        assert(s.edge(path[k - 1], path[k - 1 + 1]));
        let x = path[k - 1];
        let j = s.nodes[x as int].next.index_of(path[k]);
        assert(s.nodes[x as int].next[j] == path[k]);
    }
}

/// How many entries of `marked` are still false.
pub open spec fn unmarked(marked: Seq<bool>) -> nat
    decreases marked.len(),
{
    if marked.len() == 0 {
        0
    } else {
        unmarked(marked.drop_last()) + if marked.last() {
            0nat
        } else {
            1nat
        }
    }
}

/// Marking one more entry lowers the count by one.
proof fn lemma_mark_lowers_count(marked: Seq<bool>, i: int)
    requires
        0 <= i < marked.len(),
        !marked[i],
    ensures
        unmarked(marked.update(i, true)) + 1 == unmarked(marked),
    decreases marked.len(),
{
    let after = marked.update(i, true);
    if i == marked.len() - 1 {
        assert(after.drop_last() =~= marked.drop_last());
    } else {
        lemma_mark_lowers_count(marked.drop_last(), i);
        assert(after.drop_last() =~= marked.drop_last().update(i, true));
    }
}

/// One signal of the net.
pub struct Node<T> {
    value: Option<T>,
    next: Vec<usize>,
}

impl<T> View for Node<T> {
    type V = NodeState<T>;

    closed spec fn view(&self) -> NodeState<T> {
        NodeState { value: self.value, next: self.next@.map_values(|i: usize| i as nat) }
    }
}

/// The net: every signal ever made in it.
pub struct SignalNet<T> {
    nodes: Vec<Node<T>>,
}

impl<T> View for SignalNet<T> {
    type V = NetState<T>;

    closed spec fn view(&self) -> NetState<T> {
        NetState { nodes: self.nodes@.map_values(|n: Node<T>| n@) }
    }
}

impl<T> SignalNet<T> {
    /// A net without signals.
    pub fn new() -> (net: Self)
        ensures
            net@.nodes.len() == 0,
            net@.wf(),
    {
        SignalNet { nodes: Vec::new() }
    }
}

/// The name of one signal of a net.
pub struct Signal<T> {
    index: usize,
    marker: PhantomData<T>,
}

impl<T> Clone for Signal<T> {
    fn clone(&self) -> (copy: Self)
        ensures
            copy == *self,
    {
        Signal { index: self.index, marker: PhantomData }
    }
}

impl<T> Copy for Signal<T> {

}

impl<T> View for Signal<T> {
    type V = nat;

    closed spec fn view(&self) -> nat {
        self.index as nat
    }
}

impl<T: Clone> Signal<T> {
    /// Makes a signal with `value` and no links.
    pub fn new(value: T, net: &mut SignalNet<T>) -> (signal: Self)
        requires
            old(net)@.wf(),
        ensures
            signal@ == old(net)@.nodes.len(),
            final(net)@.nodes == old(net)@.nodes.push(
                NodeState { value: Some(value), next: Seq::empty() },
            ),
            final(net)@.wf(),
    {
        let ghost before = net@;
        let index = net.nodes.len();
        let node = Node { value: Some(value), next: Vec::new() };
        proof {
            assert(node@.next =~= Seq::empty());
        }
        net.nodes.push(node);
        proof {
            assert(net@.nodes =~= before.nodes.push(
                NodeState { value: Some(value), next: Seq::empty() },
            ));
            assert forall|i: int, k: int|
                0 <= i < net@.nodes.len() && 0 <= k < net@.nodes[i].next.len() implies (
            #[trigger] net@.nodes[i].next[k]) < net@.nodes.len() by {
                if i < before.nodes.len() {
                    assert(net@.nodes[i] == before.nodes[i]);
                    assert(before.nodes[i].next[k] < before.nodes.len());
                }
            }
        }
        Signal { index, marker: PhantomData }
    }

    /// Whether the signal is in the net and was not removed.
    pub fn is_live(&self, net: &SignalNet<T>) -> (live: bool)
        ensures
            live == net@.live(self@),
    {
        self.index < net.nodes.len() && net.nodes[self.index].value.is_some()
    }

    /// A clone of the value.
    pub fn get(&self, net: &SignalNet<T>) -> (value: T)
        requires
            net@.live(self@),
        ensures
            cloned(net@.value(self@), value),
    {
        match &net.nodes[self.index].value {
            Some(value) => value.clone(),
            None => {
                proof {
                    assert(false);
                }
                unreached()
            },
        }
    }

    /// Links this signal to `other`: from now on `other` is set whenever
    /// this signal is, and it takes a clone of this signal's value at once.
    /// A signal cannot be linked to itself.
    pub fn link(self, other: Signal<T>, net: &mut SignalNet<T>)
        requires
            old(net)@.wf(),
            old(net)@.live(self@),
            old(net)@.live(other@),
            self@ != other@,
        ensures
            final(net)@.nodes.len() == old(net)@.nodes.len(),
            final(net)@.nodes[self@ as int] == (NodeState {
                value: old(net)@.nodes[self@ as int].value,
                next: old(net)@.nodes[self@ as int].next.push(other@),
            }),
            final(net)@.nodes[other@ as int].next == old(net)@.nodes[other@ as int].next,
            final(net)@.live(other@),
            cloned(old(net)@.value(self@), final(net)@.value(other@)),
            forall|i: int|
                0 <= i < old(net)@.nodes.len() && i != self@ && i != other@ ==> final(net)@.nodes[i]
                    == old(net)@.nodes[i],
            final(net)@.wf(),
    {
        let ghost before = net@;
        let value = self.get(net);
        net.nodes[self.index].next.push(other.index);
        net.nodes[other.index].value = Some(value);
        proof {
            assert(net@.nodes[self@ as int].next =~= before.nodes[self@ as int].next.push(other@));
            assert forall|i: int, k: int|
                0 <= i < net@.nodes.len() && 0 <= k < net@.nodes[i].next.len() implies (
            #[trigger] net@.nodes[i].next[k]) < net@.nodes.len() by {
                if i == self@ {
                    if k < before.nodes[i].next.len() {
                        assert(before.nodes[i].next[k] < before.nodes.len());
                    }
                } else {
                    assert(net@.nodes[i].next == before.nodes[i].next);
                    assert(before.nodes[i].next[k] < before.nodes.len());
                }
            }
        }
    }

    /// Removes the signal and hands back its value. Links to it and through
    /// it lead nowhere from now on.
    pub fn remove(self, net: &mut SignalNet<T>) -> (value: T)
        requires
            old(net)@.wf(),
            old(net)@.live(self@),
        ensures
            value == old(net)@.value(self@),
            final(net)@.nodes == old(net)@.nodes.update(
                self@ as int,
                NodeState { value: None, next: old(net)@.nodes[self@ as int].next },
            ),
            !final(net)@.live(self@),
            final(net)@.wf(),
    {
        let ghost before = net@;
        let value = net.nodes[self.index].value.take().unwrap();
        proof {
            assert(net@.nodes =~= before.nodes.update(
                self@ as int,
                NodeState { value: None, next: before.nodes[self@ as int].next },
            ));
            assert forall|i: int, k: int|
                0 <= i < net@.nodes.len() && 0 <= k < net@.nodes[i].next.len() implies (
            #[trigger] net@.nodes[i].next[k]) < net@.nodes.len() by {
                assert(net@.nodes[i].next == before.nodes[i].next);
                assert(before.nodes[i].next[k] < before.nodes.len());
            }
        }
        value
    }
}

impl<T: Clone> Signal<T> {
    /// Sets this signal, and every signal that it reaches over links, to a
    /// clone of `value`. Nothing else changes.
    #[verifier::rlimit(60)]
    pub fn set(self, value: T, net: &mut SignalNet<T>)
        requires
            old(net)@.wf(),
            old(net)@.live(self@),
        ensures
            old(net)@.same_links(final(net)@),
            forall|i: nat| #[trigger]
                old(net)@.reaches(self@, i) ==> final(net)@.live(i) && cloned(
                    value,
                    final(net)@.value(i),
                ),
            forall|i: int|
                0 <= i < old(net)@.nodes.len() && !old(net)@.reaches(self@, i as nat)
                    ==> #[trigger] final(net)@.nodes[i] == old(net)@.nodes[i],
            final(net)@.wf(),
    {
        let ghost before = net@;
        let ghost start = self@;
        let count = net.nodes.len();
        let mut marked: Vec<bool> = Vec::new();
        while marked.len() < count
            invariant
                marked.len() <= count,
                forall|i: int| 0 <= i < marked.len() ==> !marked[i],
            decreases count - marked.len(),
        {
            marked.push(false);
        }
        let mut stack: Vec<usize> = Vec::new();
        marked.set(self.index, true);
        net.nodes[self.index].value = Some(value.clone());
        stack.push(self.index);
        proof {
            lemma_reaches_itself(before, start);
            assert forall|i: int| 0 <= i < count && i != start implies net@.nodes[i]
                == before.nodes[i] by {}
            assert(net@.nodes[start as int].next == before.nodes[start as int].next);
            assert(stack@[0] == start);
        }
        while stack.len() > 0
            invariant
                before.wf(),
                before.nodes.len() == count,
                before.live(start),
                start < count,
                marked.len() == count,
                marked[start as int],
                before.same_links(net@),
                forall|i: int|
                    0 <= i < count && #[trigger] marked[i] ==> before.reaches(start, i as nat)
                        && cloned(value, net@.value(i as nat)),
                forall|i: int| 0 <= i < count && !marked[i] ==> #[trigger] net@.nodes[i] == before.nodes[i],
                forall|k: int| 0 <= k < stack.len() ==> (#[trigger] stack[k]) < count && marked[stack[k] as int],
                forall|x: int, j: int|
                    0 <= x < count && marked[x] && !stack@.contains(x as usize) && 0 <= j
                        < before.nodes[x].next.len() && before.live(#[trigger] before.nodes[x].next[j])
                        ==> marked[before.nodes[x].next[j] as int],
            decreases 2 * unmarked(marked@) + stack.len(),
        {
            let ghost entry_stack = stack@;
            let ghost entry_measure = 2 * unmarked(marked@) + stack.len();
            let current = stack.pop().unwrap();
            let links = net.nodes[current].next.len();
            let mut k: usize = 0;
            proof {
                assert(stack@ =~= entry_stack.drop_last());
                assert(entry_stack.last() == current);
                assert forall|x: usize| x != current && !(#[trigger] stack@.contains(x)) implies !entry_stack.contains(
                    x,
                ) by {
                    if entry_stack.contains(x) {
                        let at = entry_stack.index_of(x);
                        if at < stack@.len() {
                            assert(stack@[at] == x);
                        }
                    }
                }
                assert(net@.nodes[current as int].next == before.nodes[current as int].next);
            }
            while k < links
                invariant
                    before.wf(),
                    before.nodes.len() == count,
                    before.live(start),
                    start < count,
                    current < count,
                    marked.len() == count,
                    marked[start as int],
                    marked[current as int],
                    links == before.nodes[current as int].next.len(),
                    k <= links,
                    before.same_links(net@),
                    forall|i: int|
                        0 <= i < count && #[trigger] marked[i] ==> before.reaches(start, i as nat)
                            && cloned(value, net@.value(i as nat)),
                    forall|i: int|
                        0 <= i < count && !marked[i] ==> #[trigger] net@.nodes[i] == before.nodes[i],
                    forall|j: int|
                        0 <= j < stack.len() ==> (#[trigger] stack[j]) < count && marked[stack[j] as int],
                    forall|x: int, j: int|
                        0 <= x < count && x != current && marked[x] && !stack@.contains(x as usize)
                            && 0 <= j < before.nodes[x].next.len() && before.live(
                            #[trigger] before.nodes[x].next[j],
                        ) ==> marked[before.nodes[x].next[j] as int],
                    forall|j: int|
                        0 <= j < k && before.live(#[trigger] before.nodes[current as int].next[j])
                            ==> marked[before.nodes[current as int].next[j] as int],
                    2 * unmarked(marked@) + stack.len() < entry_measure,
                decreases links - k,
            {
                let target = net.nodes[current].next[k];
                proof {
                    assert(net@.nodes[current as int].next[k as int] == target as nat);
                    assert(before.nodes[current as int].next[k as int] == target as nat);
                    assert(target < count);
                }
                if net.nodes[target].value.is_some() && !marked[target] {
                    let ghost marked_before = marked@;
                    let ghost net_before = net@;
                    let ghost stack_before = stack@;
                    marked.set(target, true);
                    net.nodes[target].value = Some(value.clone());
                    stack.push(target);
                    proof {
                        lemma_mark_lowers_count(marked_before, target as int);
                        assert(before.live(target as nat));
                        assert(before.live(current as nat)) by {
                            assert(before.reaches(start, current as nat));
                            let path = choose|path: Seq<nat>| #[trigger]
                                before.is_path(path) && path[0] == start && path.last()
                                    == current as nat;
                            if path.len() > 1 {
                                assert(before.edge(path[path.len() - 2], path[path.len() - 2 + 1]));
                            }
                        }
                        assert(before.nodes[current as int].next.contains(target as nat));
                        lemma_reaches_over_edge(before, start, current as nat, target as nat);
                        assert forall|i: int| 0 <= i < count && i != target implies net@.nodes[i]
                            == net_before.nodes[i] by {}
                        assert(net@.nodes[target as int].next == net_before.nodes[target as int].next);
                        assert forall|j: int| 0 <= j < stack.len() implies (#[trigger] stack[j])
                            < count && marked[stack[j] as int] by {
                            if j < stack.len() - 1 {
                                assert(stack[j] == stack_before[j]);
                            }
                        }
                        assert forall|x: int, j: int|
                            0 <= x < count && x != current && marked[x] && !stack@.contains(
                                x as usize,
                            ) && 0 <= j < before.nodes[x].next.len() && before.live(
                                #[trigger] before.nodes[x].next[j],
                            ) implies marked[before.nodes[x].next[j] as int] by {
                            assert(stack@[stack@.len() - 1] == target);
                            if x == target {
                                assert(stack@.contains(x as usize));
                            }
                            assert(marked_before[x]);
                            assert(!stack_before.contains(x as usize)) by {
                                if stack_before.contains(x as usize) {
                                    let at = stack_before.index_of(x as usize);
                                    assert(stack@[at] == x as usize);
                                }
                            }
                        }
                    }
                }
                k += 1;
            }
            proof {
                assert forall|x: int, j: int|
                    0 <= x < count && marked[x] && !stack@.contains(x as usize) && 0 <= j
                        < before.nodes[x].next.len() && before.live(
                        #[trigger] before.nodes[x].next[j],
                    ) implies marked[before.nodes[x].next[j] as int] by {}
            }
        }
        proof {
            assert forall|i: nat| #[trigger] before.reaches(start, i) implies net@.live(i)
                && cloned(value, net@.value(i)) by {
                let path = choose|path: Seq<nat>| #[trigger]
                    before.is_path(path) && path[0] == start && path.last() == i;
                assert(forall|x: usize| !stack@.contains(x));
                lemma_closed_set_holds_path(before, marked@, path, path.len() - 1);
                if path.len() > 1 {
                    assert(before.edge(path[path.len() - 2], path[path.len() - 2 + 1]));
                }
                assert(before.live(i));
                assert(net@.nodes[i as int].value is Some);
            }
            assert forall|i: int, k: int|
                0 <= i < net@.nodes.len() && 0 <= k < net@.nodes[i].next.len() implies (
            #[trigger] net@.nodes[i].next[k]) < net@.nodes.len() by {
                assert(net@.nodes[i].next == before.nodes[i].next);
                assert(before.nodes[i].next[k] < before.nodes.len());
            }
        }
    }
}

} // verus!
