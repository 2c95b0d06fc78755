//! Singly linked lists over a shared node arena.
//!
//! A node holds one content value and an optional handle to its successor.
//! All nodes of all lists live in one [`NodeArena`]; a handle (`usize`) names
//! a slot of the arena, and `Option<usize>` stands for "a node or none".
//! Because a list only holds a handle to its head node, the same node can be
//! reached from two lists at once, and a change to a shared node's successor
//! is visible from every list that reaches it.
//!
//! The specification model of a chain is the sequence of handles obtained by
//! following successor handles until none is left.  [`chain`] computes that
//! sequence with a fuel bound; a handle is well formed ([`wf_handle`]) when
//! some fuel suffices, which rules out cycles.

use vstd::prelude::*;

verus! {

/// One node of a singly linked list: a content value and an optional handle
/// to the next node in the arena.
#[derive(Clone, Copy)]
pub struct SinglyLinkedListNode<T> {
    content: T,
    next: Option<usize>,
}

impl<T> SinglyLinkedListNode<T> {
    /// The content stored in this node.
    pub closed spec fn content_of(self) -> T {
        self.content
    }

    /// The handle of this node's successor, if it has one.
    pub closed spec fn next_of(self) -> Option<usize> {
        self.next
    }
}

/// The operations a singly linked list asks of its node type: allocation in
/// the shared arena, and access to a node's content and successor handle.
pub trait LinkedListNode<T>: Sized {
    /// The content stored in this node.
    spec fn spec_content(self) -> T;

    /// The handle of this node's successor, if it has one.
    spec fn spec_next(self) -> Option<usize>;

    /// Allocate a new node in `arena` holding `content`, with `next` as its
    /// successor, and return its handle.  With no content there is nothing
    /// to store: no node is created and no handle is returned.
    fn create_node(arena: &mut NodeArena<T>, content: Option<T>, next: Option<usize>) -> (r: Option<
        usize,
    >)
        ensures
            content is None ==> r is None && final(arena)@ == old(arena)@,
            content is Some ==> r == Some(old(arena)@.len() as usize),
            content is Some ==> final(arena)@.len() == old(arena)@.len() + 1,
            content is Some ==> forall|j: int|
                0 <= j < old(arena)@.len() ==> final(arena)@[j] == old(arena)@[j],
            content is Some ==> final(arena)@.last().content_of() == content->0,
            content is Some ==> final(arena)@.last().next_of() == next,
    ;

    /// Replace this node's content.  Replacing it with nothing is a
    /// programming error, excluded here rather than reported at run time.
    fn set_node(&mut self, content: Option<T>)
        requires
            content is Some,
        ensures
            final(self).spec_content() == content->0,
            final(self).spec_next() == old(self).spec_next(),
    ;

    /// Replace this node's successor handle: a new successor, or none.
    fn set_next_node(&mut self, node: Option<usize>)
        ensures
            final(self).spec_next() == node,
            final(self).spec_content() == old(self).spec_content(),
    ;

    /// The handle of this node's successor, or `None` at the end of a chain.
    fn get_next_node(&self) -> (r: Option<usize>)
        ensures
            r == self.spec_next(),
    ;
}

impl<T> LinkedListNode<T> for SinglyLinkedListNode<T> {
    /// For this node type the abstract content is the `content` field.
    open spec fn spec_content(self) -> T {
        self.content_of()
    }

    /// For this node type the abstract successor is the `next` field.
    open spec fn spec_next(self) -> Option<usize> {
        self.next_of()
    }

    fn create_node(arena: &mut NodeArena<T>, content: Option<T>, next: Option<usize>) -> (r: Option<
        usize,
    >) {
        match content {
            Some(c) => {
                let idx = arena.nodes.len();
                arena.nodes.push(SinglyLinkedListNode { content: c, next });
                Some(idx)
            },
            None => None,
        }
    }

    fn set_node(&mut self, content: Option<T>) {
        self.content = content.unwrap();
    }

    fn set_next_node(&mut self, node: Option<usize>) {
        self.next = node;
    }

    fn get_next_node(&self) -> (r: Option<usize>) {
        self.next
    }
}

/// The arena that owns every node.  Lists and iterators address nodes through
/// handles (indices) into it; slots are never removed, so handles stay valid.
pub struct NodeArena<T> {
    nodes: Vec<SinglyLinkedListNode<T>>,
}

impl<T> View for NodeArena<T> {
    type V = Seq<SinglyLinkedListNode<T>>;

    closed spec fn view(&self) -> Seq<SinglyLinkedListNode<T>> {
        self.nodes@
    }
}

impl<T> NodeArena<T> {
    /// An arena with no nodes.
    pub fn new() -> (a: Self)
        ensures
            a@ == Seq::<SinglyLinkedListNode<T>>::empty(),
    {
        NodeArena { nodes: Vec::new() }
    }

    /// How many nodes the arena holds.
    pub fn node_count(&self) -> (n: usize)
        ensures
            n == self@.len(),
    {
        self.nodes.len()
    }
}

impl<T: Copy> NodeArena<T> {
    /// A copy of the node a handle names.
    pub fn node_at(&self, i: usize) -> (n: SinglyLinkedListNode<T>)
        requires
            (i as int) < self@.len(),
        ensures
            n == self@[i as int],
    {
        self.nodes[i]
    }

    /// Replace the node a handle names.  Every list or iterator that reaches
    /// the handle sees the new node: this is the shared-mutation mechanism.
    pub fn put_node(&mut self, i: usize, n: SinglyLinkedListNode<T>)
        requires
            (i as int) < old(self)@.len(),
        ensures
            final(self)@ == old(self)@.update(i as int, n),
    {
        self.nodes.set(i, n);
    }
}

/// The sequence of handles reached from `h` by following successor handles,
/// or `None` when `fuel` steps do not suffice to reach a terminal node (in
/// particular when the walk runs into a cycle or an out-of-range handle).
pub open spec fn chain<T>(
    nodes: Seq<SinglyLinkedListNode<T>>,
    h: Option<usize>,
    fuel: nat,
) -> Option<Seq<usize>>
    decreases fuel,
{
    match h {
        None => Some(Seq::empty()),
        Some(i) => if fuel == 0 || i as int >= nodes.len() {
            None
        } else {
            match chain(nodes, nodes[i as int].next_of(), (fuel - 1) as nat) {
                Some(rest) => Some(seq![i] + rest),
                None => None,
            }
        },
    }
}

/// A handle is well formed when the walk from it terminates: some fuel
/// suffices.  `None` is always well formed (the empty chain).
pub open spec fn wf_handle<T>(nodes: Seq<SinglyLinkedListNode<T>>, h: Option<usize>) -> bool {
    exists|fuel: nat| chain(nodes, h, fuel) is Some
}

/// The chain of handles reached from a well-formed handle.
pub open spec fn chain_of<T>(nodes: Seq<SinglyLinkedListNode<T>>, h: Option<usize>) -> Seq<usize> {
    chain(nodes, h, choose|fuel: nat| chain(nodes, h, fuel) is Some)->0
}

/// The contents stored at a sequence of handles, in order.
pub open spec fn contents_at<T>(nodes: Seq<SinglyLinkedListNode<T>>, idxs: Seq<usize>) -> Seq<T> {
    idxs.map_values(|i: usize| nodes[i as int].content_of())
}

/// The sequence of content values reached from `h`: the view of the chain.
pub open spec fn view_of<T>(nodes: Seq<SinglyLinkedListNode<T>>, h: Option<usize>) -> Seq<T> {
    contents_at(nodes, chain_of(nodes, h))
}

/// The handle at position `k` of a chain, with `None` for the position one
/// past the end.
pub open spec fn handle_at(idxs: Seq<usize>, k: int) -> Option<usize> {
    if 0 <= k < idxs.len() {
        Some(idxs[k])
    } else {
        None
    }
}

/// Two chains share no node.
pub open spec fn no_shared_node<T>(
    nodes: Seq<SinglyLinkedListNode<T>>,
    h1: Option<usize>,
    h2: Option<usize>,
) -> bool {
    forall|i: usize| chain_of(nodes, h1).contains(i) ==> !chain_of(nodes, h2).contains(i)
}

/// More fuel never changes a walk that already terminated.
proof fn lemma_chain_fuel_mono<T>(
    nodes: Seq<SinglyLinkedListNode<T>>,
    h: Option<usize>,
    f1: nat,
    f2: nat,
)
    requires
        chain(nodes, h, f1) is Some,
        f1 <= f2,
    ensures
        chain(nodes, h, f2) == chain(nodes, h, f1),
    decreases f1,
{
    match h {
        None => {},
        Some(i) => {
            lemma_chain_fuel_mono(nodes, nodes[i as int].next_of(), (f1 - 1) as nat, (f2 - 1) as nat);
        },
    }
}

/// A terminating walk at any fuel is the chain of its handle.
proof fn lemma_chain_of_is<T>(
    nodes: Seq<SinglyLinkedListNode<T>>,
    h: Option<usize>,
    fuel: nat,
    s: Seq<usize>,
)
    requires
        chain(nodes, h, fuel) == Some(s),
    ensures
        wf_handle(nodes, h),
        chain_of(nodes, h) == s,
{
    let picked = choose|f: nat| chain(nodes, h, f) is Some;
    if picked <= fuel {
        lemma_chain_fuel_mono(nodes, h, picked, fuel);
    } else {
        lemma_chain_fuel_mono(nodes, h, fuel, picked);
    }
}

/// Every suffix position of a chain is itself a well-formed chain, and its
/// chain is the corresponding suffix.  This is the structural fact behind
/// cross-list sharing: a list whose head stands at position `k` of another
/// list's chain sees exactly that chain's suffix, in every arena state.
pub proof fn lemma_chain_suffix<T>(nodes: Seq<SinglyLinkedListNode<T>>, h: Option<usize>, k: int)
    requires
        wf_handle(nodes, h),
        0 <= k <= chain_of(nodes, h).len(),
    ensures
        wf_handle(nodes, handle_at(chain_of(nodes, h), k)),
        chain_of(nodes, handle_at(chain_of(nodes, h), k)) == chain_of(nodes, h).skip(k),
    decreases k,
{
    let s = chain_of(nodes, h);
    let fuel = choose|f: nat| chain(nodes, h, f) is Some;
    assert(chain(nodes, h, fuel) == Some(s));
    if k == 0 {
        match h {
            None => {
                assert(s =~= Seq::<usize>::empty());
                assert(handle_at(s, 0) is None);
            },
            Some(i) => {
                let rest = chain(nodes, nodes[i as int].next_of(), (fuel - 1) as nat)->0;
                assert(s == seq![i] + rest);
                assert(s[0] == i);
            },
        }
        assert(s.skip(0) =~= s);
    } else {
        lemma_chain_suffix(nodes, h, k - 1);
        let h1 = handle_at(s, k - 1);
        assert(h1 == Some(s[k - 1]));
        let s1 = chain_of(nodes, h1);
        assert(s1 == s.skip(k - 1));
        assert(s1.len() == s.len() - (k - 1) >= 1);
        let f1 = choose|f: nat| chain(nodes, h1, f) is Some;
        assert(chain(nodes, h1, f1) == Some(s1));
        let j = s[k - 1];
        let nxt = nodes[j as int].next_of();
        let rest = chain(nodes, nxt, (f1 - 1) as nat)->0;
        assert(chain(nodes, nxt, (f1 - 1) as nat) == Some(rest));
        assert(s1 == seq![j] + rest);
        assert(rest =~= s1.skip(1));
        assert(s1.skip(1) =~= s.skip(k));
        lemma_chain_of_is(nodes, nxt, (f1 - 1) as nat, rest);
        if k < s.len() {
            match nxt {
                None => {
                    assert(false);
                },
                Some(x) => {
                    assert(rest[0] == x);
                    assert(rest[0] == s.skip(k)[0] == s[k]);
                    assert(nxt == handle_at(s, k));
                },
            }
        } else {
            match nxt {
                None => {
                    assert(nxt == handle_at(s, k));
                },
                Some(x) => {
                    assert(rest.len() > 0);
                    assert(false);
                },
            }
        }
    }
}

/// The shape of a well-formed chain: the head handle is its first entry,
/// every entry is in range, and each entry's successor is the next entry
/// (`None` after the last).
pub proof fn lemma_chain_shape<T>(nodes: Seq<SinglyLinkedListNode<T>>, h: Option<usize>)
    requires
        wf_handle(nodes, h),
    ensures
        h is None ==> chain_of(nodes, h).len() == 0,
        h is Some ==> chain_of(nodes, h).len() > 0 && chain_of(nodes, h)[0] == h->0,
        forall|k: int|
            0 <= k < chain_of(nodes, h).len() ==> (#[trigger] chain_of(nodes, h)[k] as int)
                < nodes.len(),
        forall|k: int|
            0 <= k < chain_of(nodes, h).len() ==> nodes[#[trigger] chain_of(nodes, h)[k] as int].next_of()
                == handle_at(chain_of(nodes, h), k + 1),
{
    let s = chain_of(nodes, h);
    let fuel = choose|f: nat| chain(nodes, h, f) is Some;
    assert(chain(nodes, h, fuel) == Some(s));
    match h {
        None => {},
        Some(i) => {
            let rest = chain(nodes, nodes[i as int].next_of(), (fuel - 1) as nat)->0;
            assert(s == seq![i] + rest);
            assert(s[0] == i);
        },
    }
    assert forall|k: int| 0 <= k < s.len() implies (#[trigger] s[k] as int) < nodes.len()
        && nodes[s[k] as int].next_of() == handle_at(s, k + 1) by {
        lemma_chain_suffix(nodes, h, k);
        let hk = handle_at(s, k);
        assert(hk == Some(s[k]));
        let sk = chain_of(nodes, hk);
        assert(sk == s.skip(k));
        let fk = choose|f: nat| chain(nodes, hk, f) is Some;
        assert(chain(nodes, hk, fk) == Some(sk));
        let restk = chain(nodes, nodes[s[k] as int].next_of(), (fk - 1) as nat)->0;
        assert(sk == seq![s[k]] + restk);
        assert(restk =~= sk.skip(1));
        assert(sk.skip(1) =~= s.skip(k + 1));
        lemma_chain_of_is(nodes, nodes[s[k] as int].next_of(), (fk - 1) as nat, restk);
        lemma_chain_suffix(nodes, h, k + 1);
        let hk1 = handle_at(s, k + 1);
        assert(chain_of(nodes, hk1) == s.skip(k + 1));
        match nodes[s[k] as int].next_of() {
            None => {
                assert(restk.len() == 0);
                assert(s.skip(k + 1).len() == 0);
                assert(hk1 is None);
            },
            Some(x) => {
                assert(restk[0] == x);
                assert(k + 1 < s.len());
                assert(restk[0] == s[k + 1]);
                assert(hk1 == Some(s[k + 1]));
            },
        }
    }
}

/// The entries of a well-formed chain are pairwise distinct: the walk never
/// visits a node twice (a revisit would never terminate).
pub proof fn lemma_chain_distinct<T>(nodes: Seq<SinglyLinkedListNode<T>>, h: Option<usize>)
    requires
        wf_handle(nodes, h),
    ensures
        forall|a: int, b: int|
            0 <= a < b < chain_of(nodes, h).len() ==> #[trigger] chain_of(nodes, h)[a]
                != #[trigger] chain_of(nodes, h)[b],
{
    let s = chain_of(nodes, h);
    assert forall|a: int, b: int| 0 <= a < b < s.len() implies #[trigger] s[a] != #[trigger] s[b] by {
        if s[a] == s[b] {
            lemma_chain_suffix(nodes, h, a);
            lemma_chain_suffix(nodes, h, b);
            assert(chain_of(nodes, Some(s[a])) == s.skip(a));
            assert(chain_of(nodes, Some(s[b])) == s.skip(b));
            assert(s.skip(a).len() == s.len() - a);
            assert(s.skip(b).len() == s.len() - b);
        }
    }
}

proof fn lemma_chain_update_fueled<T>(
    nodes: Seq<SinglyLinkedListNode<T>>,
    h: Option<usize>,
    fuel: nat,
    j: int,
    n2: SinglyLinkedListNode<T>,
)
    requires
        chain(nodes, h, fuel) is Some,
        0 <= j < nodes.len(),
        !chain(nodes, h, fuel)->0.contains(j as usize),
    ensures
        chain(nodes.update(j, n2), h, fuel) == chain(nodes, h, fuel),
    decreases fuel,
{
    match h {
        None => {},
        Some(i) => {
            let rest = chain(nodes, nodes[i as int].next_of(), (fuel - 1) as nat)->0;
            let s = chain(nodes, h, fuel)->0;
            assert(s == seq![i] + rest);
            assert(s[0] == i);
            assert(s.contains(i));
            assert(i != j as usize);
            assert forall|x: usize| rest.contains(x) implies s.contains(x) by {
                let k = choose|k: int| 0 <= k < rest.len() && rest[k] == x;
                assert(s[k + 1] == x);
            }
            lemma_chain_update_fueled(nodes, nodes[i as int].next_of(), (fuel - 1) as nat, j, n2);
            assert(nodes.update(j, n2)[i as int] == nodes[i as int]);
        },
    }
}

/// Changing a node that a chain never visits leaves the chain unchanged.
pub proof fn lemma_chain_update_outside<T>(
    nodes: Seq<SinglyLinkedListNode<T>>,
    h: Option<usize>,
    j: int,
    n2: SinglyLinkedListNode<T>,
)
    requires
        wf_handle(nodes, h),
        0 <= j < nodes.len(),
        !chain_of(nodes, h).contains(j as usize),
    ensures
        wf_handle(nodes.update(j, n2), h),
        chain_of(nodes.update(j, n2), h) == chain_of(nodes, h),
{
    let fuel = choose|f: nat| chain(nodes, h, f) is Some;
    lemma_chain_update_fueled(nodes, h, fuel, j, n2);
    lemma_chain_of_is(nodes.update(j, n2), h, fuel, chain_of(nodes, h));
}

proof fn lemma_chain_extend_fueled<T>(
    nodes: Seq<SinglyLinkedListNode<T>>,
    nodes2: Seq<SinglyLinkedListNode<T>>,
    h: Option<usize>,
    fuel: nat,
)
    requires
        chain(nodes, h, fuel) is Some,
        nodes.len() <= nodes2.len(),
        forall|i: int| 0 <= i < nodes.len() ==> nodes2[i] == nodes[i],
    ensures
        chain(nodes2, h, fuel) == chain(nodes, h, fuel),
    decreases fuel,
{
    match h {
        None => {},
        Some(i) => {
            lemma_chain_extend_fueled(nodes, nodes2, nodes[i as int].next_of(), (fuel - 1) as nat);
        },
    }
}

/// Growing the arena (keeping every existing slot) leaves every chain over
/// the old slots unchanged.
pub proof fn lemma_chain_extend<T>(
    nodes: Seq<SinglyLinkedListNode<T>>,
    nodes2: Seq<SinglyLinkedListNode<T>>,
    h: Option<usize>,
)
    requires
        wf_handle(nodes, h),
        nodes.len() <= nodes2.len(),
        forall|i: int| 0 <= i < nodes.len() ==> nodes2[i] == nodes[i],
    ensures
        wf_handle(nodes2, h),
        chain_of(nodes2, h) == chain_of(nodes, h),
{
    let fuel = choose|f: nat| chain(nodes, h, f) is Some;
    lemma_chain_extend_fueled(nodes, nodes2, h, fuel);
    lemma_chain_of_is(nodes2, h, fuel, chain_of(nodes, h));
}

/// The contents seen along a chain do not change when the arena changes only
/// at slots the chain never visits, or only in slots past its entries.
pub proof fn lemma_contents_same<T>(
    nodes: Seq<SinglyLinkedListNode<T>>,
    nodes2: Seq<SinglyLinkedListNode<T>>,
    idxs: Seq<usize>,
)
    requires
        forall|k: int|
            0 <= k < idxs.len() ==> (#[trigger] idxs[k] as int) < nodes.len()
                && (idxs[k] as int) < nodes2.len() && nodes2[idxs[k] as int].content_of()
                == nodes[idxs[k] as int].content_of(),
    ensures
        contents_at(nodes2, idxs) == contents_at(nodes, idxs),
{
    assert(contents_at(nodes2, idxs) =~= contents_at(nodes, idxs));
}

proof fn lemma_chain_link_walk<T>(
    nodes: Seq<SinglyLinkedListNode<T>>,
    h: Option<usize>,
    g: Option<usize>,
    n2: SinglyLinkedListNode<T>,
    fu: nat,
    k: int,
)
    requires
        wf_handle(nodes, h),
        wf_handle(nodes, g),
        chain_of(nodes, h).len() > 0,
        no_shared_node(nodes, h, g),
        n2.next_of() == g,
        chain(
            nodes.update(chain_of(nodes, h).last() as int, n2),
            g,
            fu,
        ) == Some(chain_of(nodes, g)),
        0 <= k < chain_of(nodes, h).len(),
    ensures
        chain(
            nodes.update(chain_of(nodes, h).last() as int, n2),
            Some(chain_of(nodes, h)[k]),
            ((chain_of(nodes, h).len() - k) + fu) as nat,
        ) == Some(chain_of(nodes, h).skip(k) + chain_of(nodes, g)),
    decreases chain_of(nodes, h).len() - k,
{
    let s = chain_of(nodes, h);
    let u = chain_of(nodes, g);
    let t = s.last();
    let nodes2 = nodes.update(t as int, n2);
    lemma_chain_shape(nodes, h);
    lemma_chain_distinct(nodes, h);
    if k == s.len() - 1 {
        assert(s[k] == t);
        assert(nodes2[t as int] == n2);
        assert(nodes2[t as int].next_of() == g);
        let fuel = (1 + fu) as nat;
        assert(chain(nodes2, g, (fuel - 1) as nat) == Some(u));
        assert(chain(nodes2, Some(t), fuel) == Some(seq![t] + u));
        assert(seq![t] + u =~= s.skip(k) + u);
    } else {
        assert(s[k] != t);
        assert(nodes2[s[k] as int] == nodes[s[k] as int]);
        assert(nodes[s[k] as int].next_of() == handle_at(s, k + 1));
        assert(handle_at(s, k + 1) == Some(s[k + 1]));
        lemma_chain_link_walk(nodes, h, g, n2, fu, k + 1);
        let fuel = ((s.len() - k) + fu) as nat;
        assert(chain(nodes2, Some(s[k + 1]), (fuel - 1) as nat) == Some(s.skip(k + 1) + u));
        assert(chain(nodes2, Some(s[k]), fuel) == Some(seq![s[k]] + (s.skip(k + 1) + u)));
        assert(seq![s[k]] + (s.skip(k + 1) + u) =~= s.skip(k) + u);
    }
}

/// Linking one chain's terminal node to another chain: replacing the last
/// node of the chain from `h` by a node with the same content whose successor
/// is `g` appends the chain from `g`, and leaves the chain from `g` itself
/// unchanged.  The two chains must share no node, else the link would close
/// a cycle.
pub proof fn lemma_chain_link<T>(
    nodes: Seq<SinglyLinkedListNode<T>>,
    h: Option<usize>,
    g: Option<usize>,
    n2: SinglyLinkedListNode<T>,
)
    requires
        wf_handle(nodes, h),
        wf_handle(nodes, g),
        chain_of(nodes, h).len() > 0,
        no_shared_node(nodes, h, g),
        n2.next_of() == g,
        n2.content_of() == nodes[chain_of(nodes, h).last() as int].content_of(),
    ensures
        wf_handle(nodes.update(chain_of(nodes, h).last() as int, n2), h),
        chain_of(nodes.update(chain_of(nodes, h).last() as int, n2), h) == chain_of(nodes, h)
            + chain_of(nodes, g),
        wf_handle(nodes.update(chain_of(nodes, h).last() as int, n2), g),
        chain_of(nodes.update(chain_of(nodes, h).last() as int, n2), g) == chain_of(nodes, g),
        view_of(nodes.update(chain_of(nodes, h).last() as int, n2), h) == view_of(nodes, h)
            + view_of(nodes, g),
        view_of(nodes.update(chain_of(nodes, h).last() as int, n2), g) == view_of(nodes, g),
{
    let s = chain_of(nodes, h);
    let u = chain_of(nodes, g);
    let t = s.last();
    let nodes2 = nodes.update(t as int, n2);
    lemma_chain_shape(nodes, h);
    lemma_chain_shape(nodes, g);
    lemma_chain_distinct(nodes, h);
    assert(s[s.len() - 1] == t);
    assert(s.contains(t));
    assert(!u.contains(t));
    lemma_chain_update_outside(nodes, g, t as int, n2);
    assert(chain_of(nodes2, g) == u);
    let fu = choose|f: nat| chain(nodes2, g, f) is Some;
    assert(chain(nodes2, g, fu) == Some(u));
    lemma_chain_link_walk(nodes, h, g, n2, fu, 0);
    assert(h == Some(s[0]));
    assert(s.skip(0) =~= s);
    lemma_chain_of_is(nodes2, h, ((s.len() - 0) + fu) as nat, s + u);
    // The contents along both chains are unchanged: only slot `t` was
    // replaced, by a node with the same content.
    assert forall|k: int| 0 <= k < s.len() implies (#[trigger] s[k] as int) < nodes.len()
        && nodes2[s[k] as int].content_of() == nodes[s[k] as int].content_of() by {}
    assert forall|k: int| 0 <= k < u.len() implies (#[trigger] u[k] as int) < nodes.len()
        && nodes2[u[k] as int].content_of() == nodes[u[k] as int].content_of() by {
        assert(u.contains(u[k]));
    }
    lemma_contents_same(nodes, nodes2, s);
    lemma_contents_same(nodes, nodes2, u);
    assert(contents_at(nodes2, s + u) =~= contents_at(nodes2, s) + contents_at(nodes2, u));
}

/// The walk from no node at all is the empty chain: iterating an empty list
/// yields the empty sequence, never an error.
pub proof fn lemma_empty_chain<T>(nodes: Seq<SinglyLinkedListNode<T>>)
    ensures
        wf_handle(nodes, None::<usize>),
        chain_of(nodes, None::<usize>) == Seq::<usize>::empty(),
        view_of(nodes, None::<usize>) == Seq::<T>::empty(),
{
    assert(chain(nodes, None::<usize>, 0) == Some(Seq::<usize>::empty()));
    lemma_chain_of_is(nodes, None::<usize>, 0, Seq::<usize>::empty());
    assert(contents_at(nodes, Seq::<usize>::empty()) =~= Seq::<T>::empty());
}

/// A node whose successor is well formed heads a well-formed chain: its own
/// handle followed by the successor's chain, its content followed by the
/// successor's view.
pub proof fn lemma_chain_cons<T>(nodes: Seq<SinglyLinkedListNode<T>>, i: usize)
    requires
        (i as int) < nodes.len(),
        wf_handle(nodes, nodes[i as int].next_of()),
    ensures
        wf_handle(nodes, Some(i)),
        chain_of(nodes, Some(i)) == seq![i] + chain_of(nodes, nodes[i as int].next_of()),
        view_of(nodes, Some(i)) == seq![nodes[i as int].content_of()] + view_of(
            nodes,
            nodes[i as int].next_of(),
        ),
{
    let nxt = nodes[i as int].next_of();
    let u = chain_of(nodes, nxt);
    let fuel = choose|f: nat| chain(nodes, nxt, f) is Some;
    assert(chain(nodes, nxt, fuel) == Some(u));
    assert(chain(nodes, Some(i), fuel + 1) == Some(seq![i] + u));
    lemma_chain_of_is(nodes, Some(i), fuel + 1, seq![i] + u);
    assert(contents_at(nodes, seq![i] + u) =~= seq![nodes[i as int].content_of()] + contents_at(
        nodes,
        u,
    ));
}

/// A singly linked list: a handle to its head node, and a counter of head
/// insertions.  The nodes themselves live in a [`NodeArena`], so a node of
/// one list can be adopted by another without copying.
pub struct SinglyLinkedList {
    head: Option<usize>,
    len: u32,
}

impl SinglyLinkedList {
    /// The handle of the head node, or `None` for an empty list.
    pub closed spec fn head_handle(self) -> Option<usize> {
        self.head
    }

    /// The head-insertion counter.  It counts head insertions only, so it
    /// diverges from the number of reachable elements once tail insertions
    /// or node adoptions are used.
    pub closed spec fn len_spec(self) -> u32 {
        self.len
    }

    /// The list is well formed in `arena` when the walk from its head
    /// terminates: every handle on the way is in range and no cycle occurs.
    pub open spec fn wf<T>(self, arena: NodeArena<T>) -> bool {
        wf_handle(arena@, self.head_handle())
    }

    /// The content values of the list, front to back, as stored in `arena`.
    pub open spec fn view_in<T>(self, arena: NodeArena<T>) -> Seq<T> {
        view_of(arena@, self.head_handle())
    }

    /// An empty list: no head, counter at zero.
    pub fn new() -> (l: Self)
        ensures
            l.head_handle() is None,
            l.len_spec() == 0,
    {
        SinglyLinkedList { head: None, len: 0 }
    }

    /// A new handle to the head node, or `None` when the list is empty.
    /// The handle can be handed to another list's `add_node` or
    /// `tail_insert_node`: that is the cross-list sharing entry point.
    pub fn get_head_node(&self) -> (r: Option<usize>)
        ensures
            r == self.head_handle(),
    {
        self.head
    }

    /// The head-insertion counter; see [`Self::len_spec`].
    pub fn len(&self) -> (n: u32)
        ensures
            n == self.len_spec(),
    {
        self.len
    }

    /// Create a new node holding `ele` whose successor is the current head,
    /// and make it the new head; the counter goes up by one.  Runs in
    /// constant time, which is why it is the preferred insertion path.
    pub fn head_insert_element<T: Copy>(&mut self, arena: &mut NodeArena<T>, ele: T)
        requires
            old(self).wf(*old(arena)),
            old(self).len_spec() < u32::MAX,
        ensures
            final(self).wf(*final(arena)),
            final(self).view_in(*final(arena)) == seq![ele] + old(self).view_in(*old(arena)),
            final(self).len_spec() == old(self).len_spec() + 1,
            final(self).head_handle() == Some(old(arena)@.len() as usize),
            final(arena)@.len() == old(arena)@.len() + 1,
            forall|j: int| 0 <= j < old(arena)@.len() ==> final(arena)@[j] == old(arena)@[j],
            final(arena)@.last().content_of() == ele,
            final(arena)@.last().next_of() == old(self).head_handle(),
    {
        let idx = arena.node_count();
        let new_head = SinglyLinkedListNode::create_node(arena, Some(ele), self.head);
        proof {
            let hd = old(self).head_handle();
            lemma_chain_shape(old(arena)@, hd);
            lemma_chain_extend(old(arena)@, arena@, hd);
            lemma_contents_same(old(arena)@, arena@, chain_of(old(arena)@, hd));
            assert(arena@[idx as int] == arena@.last());
            assert(arena@[idx as int].next_of() == hd);
            assert(arena@[idx as int].content_of() == ele);
            lemma_chain_cons(arena@, idx);
            assert(view_of(arena@, Some(idx)) == seq![ele] + view_of(old(arena)@, hd));
        }
        self.head = new_head;
        self.len = self.len + 1;
    }

    /// Walk from the head to the terminal node and hang `node`'s chain off
    /// it; when the list is empty, `node` becomes the head directly.  The
    /// counter is not touched: it counts head insertions only.  Costs one
    /// traversal, since no tail handle is kept — the deliberate trade-off
    /// against constant-time head insertion.
    ///
    /// `node`'s chain must share no node with this list: hanging a chain
    /// that reaches back into the list would close a cycle.
    pub fn tail_insert_node<T: Copy>(&mut self, arena: &mut NodeArena<T>, node: Option<usize>)
        requires
            old(self).wf(*old(arena)),
            wf_handle(old(arena)@, node),
            no_shared_node(old(arena)@, old(self).head_handle(), node),
            old(self).head_handle() is None ==> node is Some,
        ensures
            final(self).wf(*final(arena)),
            final(self).view_in(*final(arena)) == old(self).view_in(*old(arena)) + view_of(
                old(arena)@,
                node,
            ),
            final(self).len_spec() == old(self).len_spec(),
            final(arena)@.len() == old(arena)@.len(),
            wf_handle(final(arena)@, node),
            chain_of(final(arena)@, node) == chain_of(old(arena)@, node),
            view_of(final(arena)@, node) == view_of(old(arena)@, node),
            old(self).head_handle() is None ==> final(self).head_handle() == node && final(arena)@ == old(arena)@,
            old(self).head_handle() is Some ==> final(self).head_handle() == old(self).head_handle() && ({
                let t = chain_of(old(arena)@, old(self).head_handle()).last();
                &&& final(arena)@[t as int].content_of() == old(arena)@[t as int].content_of()
                &&& final(arena)@[t as int].next_of() == node
                &&& forall|j: int|
                    0 <= j < old(arena)@.len() && j != t as int ==> final(arena)@[j] == old(arena)@[j]
            }),
    {
        match self.head {
            None => {
                self.head = node;
                proof {
                    lemma_empty_chain(arena@);
                    assert(old(self).view_in(*old(arena)) + view_of(old(arena)@, node) =~= view_of(
                        arena@,
                        node,
                    ));
                }
            },
            Some(hd) => {
                let ghost s = chain_of(arena@, Some(hd));
                proof {
                    lemma_chain_shape(arena@, Some(hd));
                }
                let mut cur: usize = hd;
                let ghost mut k: int = 0;
                let n0 = arena.node_at(cur);
                let mut nxt = n0.get_next_node();
                while nxt.is_some()
                    invariant
                        wf_handle(arena@, Some(hd)),
                        s == chain_of(arena@, Some(hd)),
                        0 <= k < s.len(),
                        s[k] == cur,
                        nxt == handle_at(s, k + 1),
                    decreases s.len() - k,
                {
                    proof {
                        lemma_chain_shape(arena@, Some(hd));
                        k = k + 1;
                    }
                    cur = nxt.unwrap();
                    let n = arena.node_at(cur);
                    nxt = n.get_next_node();
                }
                proof {
                    assert(k == s.len() - 1);
                    assert(cur == s.last());
                }
                let mut tail_node = arena.node_at(cur);
                tail_node.set_next_node(node);
                arena.put_node(cur, tail_node);
                proof {
                    lemma_chain_link(old(arena)@, Some(hd), node, tail_node);
                }
            },
        }
    }

    /// Insert `node` into this list: directly as the head when the list is
    /// empty, else by tail insertion, since `node` may come from another
    /// list and must go behind this list's own elements.  With no node and a
    /// non-empty list, nothing happens.  The counter is never touched.
    pub fn add_node<T: Copy>(&mut self, arena: &mut NodeArena<T>, node: Option<usize>)
        requires
            old(self).wf(*old(arena)),
            wf_handle(old(arena)@, node),
            no_shared_node(old(arena)@, old(self).head_handle(), node),
        ensures
            final(self).wf(*final(arena)),
            final(self).view_in(*final(arena)) == old(self).view_in(*old(arena)) + view_of(
                old(arena)@,
                node,
            ),
            final(self).len_spec() == old(self).len_spec(),
            final(arena)@.len() == old(arena)@.len(),
            wf_handle(final(arena)@, node),
            chain_of(final(arena)@, node) == chain_of(old(arena)@, node),
            view_of(final(arena)@, node) == view_of(old(arena)@, node),
            old(self).head_handle() is None ==> final(self).head_handle() == node && final(arena)@ == old(arena)@,
            node is None ==> *final(self) == *old(self),
            node is None ==> final(arena)@ == old(arena)@,
    {
        if self.head.is_none() {
            self.head = node;
            proof {
                lemma_empty_chain(arena@);
                assert(old(self).view_in(*old(arena)) + view_of(old(arena)@, node) =~= view_of(
                    arena@,
                    node,
                ));
            }
            return ;
        }
        match node {
            Some(n) => {
                self.tail_insert_node(arena, Some(n));
            },
            None => {
                proof {
                    lemma_empty_chain(arena@);
                    assert(old(self).view_in(*old(arena)) + view_of(old(arena)@, node) =~= old(self).view_in(*old(arena)));
                }
            },
        }
    }

    /// A cursor over this list's chain, starting at the head.
    pub fn iter(&self) -> (it: SinglyLinkedListIterator)
        ensures
            it.pos_handle() == self.head_handle(),
    {
        SinglyLinkedListIterator::new(self.head)
    }
}

/// A forward cursor over a chain of nodes.  It holds a handle to the node it
/// stands on; once it walks past the terminal node it stays exhausted.
pub struct SinglyLinkedListIterator {
    pos: Option<usize>,
}

impl SinglyLinkedListIterator {
    /// The handle of the node the cursor stands on, or `None` once the
    /// cursor is exhausted.
    pub closed spec fn pos_handle(self) -> Option<usize> {
        self.pos
    }

    /// The cursor is well formed in `arena` when the walk from its position
    /// terminates.
    pub open spec fn wf<T>(self, arena: NodeArena<T>) -> bool {
        wf_handle(arena@, self.pos_handle())
    }

    /// The values the cursor has not yet yielded, in order.
    pub open spec fn remaining<T>(self, arena: NodeArena<T>) -> Seq<T> {
        view_of(arena@, self.pos_handle())
    }

    /// A cursor standing on `head` (a copy of the handle, not of the node).
    pub fn new(head: Option<usize>) -> (it: Self)
        ensures
            it.pos_handle() == head,
    {
        SinglyLinkedListIterator { pos: head }
    }

    /// The handle of the current node, advancing the cursor past it; `None`
    /// every time once the cursor is exhausted.
    pub fn next_node<T: Copy>(&mut self, arena: &NodeArena<T>) -> (r: Option<usize>)
        requires
            old(self).wf(*arena),
        ensures
            r == old(self).pos_handle(),
            final(self).wf(*arena),
            r is Some ==> final(self).pos_handle() == arena@[r->0 as int].next_of() && final(self).remaining(*arena) == old(self).remaining(*arena).skip(1),
            r is None ==> *final(self) == *old(self) && old(self).remaining(*arena).len() == 0,
    {
        match self.pos {
            Some(i) => {
                proof {
                    lemma_chain_shape(arena@, old(self).pos_handle());
                    lemma_chain_suffix(arena@, old(self).pos_handle(), 1);
                    let s = chain_of(arena@, old(self).pos_handle());
                    assert(contents_at(arena@, s.skip(1)) =~= contents_at(arena@, s).skip(1));
                }
                let n = arena.node_at(i);
                self.pos = n.get_next_node();
                Some(i)
            },
            None => {
                proof {
                    lemma_empty_chain(arena@);
                }
                None
            },
        }
    }

    /// A copy of the current node's content, advancing the cursor; `None`
    /// every time once the cursor is exhausted.
    pub fn next<T: Copy>(&mut self, arena: &NodeArena<T>) -> (r: Option<T>)
        requires
            old(self).wf(*arena),
        ensures
            final(self).wf(*arena),
            old(self).remaining(*arena).len() > 0 ==> r == Some(old(self).remaining(*arena)[0])
                && final(self).remaining(*arena) == old(self).remaining(*arena).skip(1),
            old(self).remaining(*arena).len() == 0 ==> r is None && *final(self) == *old(self),
    {
        proof {
            lemma_chain_shape(arena@, old(self).pos_handle());
        }
        match self.pos {
            Some(i) => {
                proof {
                    lemma_chain_suffix(arena@, old(self).pos_handle(), 1);
                    let s = chain_of(arena@, old(self).pos_handle());
                    assert(contents_at(arena@, s.skip(1)) =~= contents_at(arena@, s).skip(1));
                    assert(old(self).remaining(*arena)[0] == arena@[i as int].content_of());
                }
                let n = arena.node_at(i);
                self.pos = n.get_next_node();
                Some(n.content)
            },
            None => {
                proof {
                    lemma_empty_chain(arena@);
                }
                None
            },
        }
    }

    /// Every value from the cursor's position to the end of the chain, in
    /// order; the cursor ends exhausted.
    pub fn collect<T: Copy>(&mut self, arena: &NodeArena<T>) -> (v: Vec<T>)
        requires
            old(self).wf(*arena),
        ensures
            v@ == old(self).remaining(*arena),
            final(self).pos_handle() is None,
    {
        let mut v: Vec<T> = Vec::new();
        while self.pos.is_some()
            invariant
                self.wf(*arena),
                v@ + self.remaining(*arena) == old(self).remaining(*arena),
                self.pos_handle() is None ==> self.remaining(*arena).len() == 0,
            decreases self.remaining(*arena).len(),
        {
            proof {
                lemma_chain_shape(arena@, self.pos_handle());
            }
            let ghost v_old = v@;
            let ghost rem_old = self.remaining(*arena);
            let x = self.next(arena);
            v.push(x.unwrap());
            proof {
                assert(v@ =~= v_old.push(rem_old[0]));
                assert(v@ + self.remaining(*arena) =~= v_old + rem_old);
                lemma_chain_shape(arena@, self.pos_handle());
                lemma_empty_chain::<T>(arena@);
            }
        }
        proof {
            lemma_empty_chain::<T>(arena@);
            assert(v@ =~= old(self).remaining(*arena));
        }
        v
    }
}

/// The view built by a run of head insertions: inserting the values of
/// `vals` in order into a list whose view is `init` prepends each value in
/// turn, as the contract of `head_insert_element` states for a single call.
pub open spec fn view_after_head_inserts<T>(init: Seq<T>, vals: Seq<T>) -> Seq<T>
    decreases vals.len(),
{
    if vals.len() == 0 {
        init
    } else {
        seq![vals.last()] + view_after_head_inserts(init, vals.drop_last())
    }
}

/// Head-inserting values `v1..vn`, in that call order, into an empty list
/// yields the view `[vn, ..., v1]`: each insertion prepends its value, so
/// folding the prepends from the empty view reverses the insertion order.
pub proof fn lemma_head_inserts_reverse<T>(vals: Seq<T>)
    ensures
        view_after_head_inserts(Seq::<T>::empty(), vals) == vals.reverse(),
    decreases vals.len(),
{
    if vals.len() == 0 {
        assert(view_after_head_inserts(Seq::<T>::empty(), vals) =~= vals.reverse());
    } else {
        lemma_head_inserts_reverse(vals.drop_last());
        assert(seq![vals.last()] + vals.drop_last().reverse() =~= vals.reverse());
    }
}

/// Cross-list aliasing: when list `a`'s head stands at position `k` of list
/// `b`'s chain — as after `b.add_node(a.get_head_node())`, which makes `a`'s
/// whole chain `b`'s tail — `a`'s view is exactly the corresponding suffix
/// of `b`'s view.  The lemma holds in whatever arena state the two lists
/// share, so a change appended behind the shared node shows in both views:
/// the adopted chain is an alias, not a copy.
pub proof fn lemma_cross_list_alias<T>(
    arena: NodeArena<T>,
    a: SinglyLinkedList,
    b: SinglyLinkedList,
    k: int,
)
    requires
        b.wf(arena),
        0 <= k <= chain_of(arena@, b.head_handle()).len(),
        a.head_handle() == handle_at(chain_of(arena@, b.head_handle()), k),
    ensures
        a.wf(arena),
        a.view_in(arena) == b.view_in(arena).skip(k),
{
    lemma_chain_suffix(arena@, b.head_handle(), k);
    let s = chain_of(arena@, b.head_handle());
    assert(contents_at(arena@, s.skip(k)) =~= contents_at(arena@, s).skip(k));
}

} // verus!

