use vstd::prelude::*;

use crate::Error;
use crate::stream::{Pulled, Stream};

verus! {

/// One position in a byte vocabulary.
///
/// Children are keyed by a byte; the reserved end-of-token edge is kept apart
/// in `terminal`, and the payload lives only at the node that edge reaches.
/// Node references are indices into the owning tree's arena, so an edge is
/// never repointed once made: the tree only grows.
pub struct TrieNode<T> {
    /// Payload; present only at a node reached via a terminal edge.
    pub data: Option<T>,
    /// Byte-keyed edges `(byte, child index)`. When the tree folds case the
    /// stored byte is already folded.
    pub children: Vec<(u8, usize)>,
    /// The end-of-token edge, if the token ending here was registered.
    pub terminal: Option<usize>,
}

impl<T> TrieNode<T> {
    /// Shared read access to the payload.
    pub fn data_ref(&self) -> (r: &Option<T>)
        ensures
            *r == self.data,
    {
        &self.data
    }

    /// Replaces the payload, returning the previous one.
    pub fn data_mut(&mut self, data: Option<T>) -> (r: Option<T>)
        ensures
            final(self).data == data,
            r == old(self).data,
            final(self).children == old(self).children,
            final(self).terminal == old(self).terminal,
    {
        let r = self.data.take();
        self.data = data;
        r
    }
}

/// Outcome of walking a byte sequence from a node, folding each byte and
/// stopping at the tree's separator. `used` counts the bytes walked over
/// before the outcome was reached.
pub enum ScanResult {
    /// The separator was seen with `used` bytes matched before it.
    Sep { node: int, used: nat },
    /// The bytes ran out after matching all of them.
    End { node: int, used: nat },
    /// A byte had no matching edge.
    Miss { used: nat },
}

/// An incremental prefix tree keyed by bytes, holding a payload at nodes
/// reached by the reserved end-of-token edge.
///
/// Vocabularies differ in two ways only (header names fold ASCII case and end
/// at a colon; URL paths are case-sensitive and end at a space), so both are
/// one configuration of this type.
pub struct TrieTree<T> {
    /// Arena of nodes; index 0 is the root, edges point forward only.
    pub nodes: Vec<TrieNode<T>>,
    /// Whether bytes are folded to ASCII lower case on insert and match.
    pub fold_case: bool,
    /// The byte that ends a token during matching, excluded from the key.
    pub separator: u8,
}

impl<T> TrieTree<T> {
    /// A byte as the tree matches it.
    pub open spec fn fold_spec(&self, b: u8) -> u8 {
        if self.fold_case && 65 <= b && b <= 90 {
            (b + 32) as u8
        } else {
            b
        }
    }

    /// A key as the tree matches it, byte for byte.
    pub open spec fn fold_seq(&self, k: Seq<u8>) -> Seq<u8> {
        Seq::new(k.len(), |i: int| self.fold_spec(k[i]))
    }

    /// The child reached from a child list by an exact byte.
    pub open spec fn edge_in(children: Seq<(u8, usize)>, b: u8) -> Option<usize>
        decreases children.len(),
    {
        if children.len() == 0 {
            None
        } else if children[0].0 == b {
            Some(children[0].1)
        } else {
            Self::edge_in(children.skip(1), b)
        }
    }

    /// The child reached from node `i` by an exact byte.
    pub open spec fn edge(&self, i: int, b: u8) -> Option<usize> {
        Self::edge_in(self.nodes@[i].children@, b)
    }

    /// Every edge of node `i` points forward and in range, edge bytes are
    /// distinct and already folded.
    pub open spec fn node_wf(&self, i: int) -> bool {
        &&& forall|j: int|
            0 <= j < self.nodes@[i].children@.len() ==> i < (#[trigger] self.nodes@[i].children@[j]).1
                < self.nodes@.len()
        &&& match self.nodes@[i].terminal {
            Some(t) => i < t < self.nodes@.len(),
            None => true,
        }
        &&& forall|j: int, k: int|
            0 <= j < k < self.nodes@[i].children@.len() ==> (#[trigger] self.nodes@[i].children@[j]).0
                != (#[trigger] self.nodes@[i].children@[k]).0
        &&& forall|j: int|
            0 <= j < self.nodes@[i].children@.len() ==> (#[trigger] self.nodes@[i].children@[j]).0
                == self.fold_spec(self.nodes@[i].children@[j].0)
    }

    /// The arena is nonempty and every node is well formed.
    pub open spec fn wf(&self) -> bool {
        &&& 1 <= self.nodes@.len()
        &&& forall|i: int| 0 <= i < self.nodes@.len() ==> self.node_wf(i)
    }

    /// The node reached from node `i` by an already-folded key, ignoring
    /// separators.
    pub open spec fn walk_from(&self, i: int, key: Seq<u8>) -> Option<int>
        decreases key.len(),
    {
        if key.len() == 0 {
            Some(i)
        } else {
            match self.edge(i, key[0]) {
                None => None,
                Some(c) => self.walk_from(c as int, key.skip(1)),
            }
        }
    }

    /// The terminal node registered for an already-folded key.
    pub open spec fn lookup_node(&self, key: Seq<u8>) -> Option<int> {
        match self.walk_from(0, key) {
            None => None,
            Some(i) => match self.nodes@[i].terminal {
                None => None,
                Some(t) => Some(t as int),
            },
        }
    }

    /// The payload registered for an already-folded key.
    pub open spec fn lookup(&self, key: Seq<u8>) -> Option<T> {
        match self.lookup_node(key) {
            None => None,
            Some(t) => self.nodes@[t].data,
        }
    }

    /// Walk raw bytes from node `i`: fold each byte, stop at the separator.
    pub open spec fn scan_from(&self, i: int, key: Seq<u8>) -> ScanResult
        decreases key.len(),
    {
        if key.len() == 0 {
            ScanResult::End { node: i, used: 0 }
        } else if key[0] == self.separator {
            ScanResult::Sep { node: i, used: 0 }
        } else {
            match self.edge(i, self.fold_spec(key[0])) {
                None => ScanResult::Miss { used: 0 },
                Some(c) => Self::scan_bump(self.scan_from(c as int, key.skip(1))),
            }
        }
    }

    /// The same outcome, one byte further in.
    pub open spec fn scan_bump(r: ScanResult) -> ScanResult {
        match r {
            ScanResult::Sep { node, used } => ScanResult::Sep { node, used: used + 1 },
            ScanResult::End { node, used } => ScanResult::End { node, used: used + 1 },
            ScanResult::Miss { used } => ScanResult::Miss { used: used + 1 },
        }
    }

    /// The same outcome, `d` bytes further in.
    pub open spec fn scan_shift(r: ScanResult, d: nat) -> ScanResult {
        match r {
            ScanResult::Sep { node, used } => ScanResult::Sep { node, used: used + d },
            ScanResult::End { node, used } => ScanResult::End { node, used: used + d },
            ScanResult::Miss { used } => ScanResult::Miss { used: used + d },
        }
    }

    /// An empty tree with the given matching configuration.
    pub fn new(fold_case: bool, separator: u8) -> (r: TrieTree<T>)
        ensures
            r.wf(),
            r.fold_case == fold_case,
            r.separator == separator,
            r.nodes@.len() == 1,
            forall|k: Seq<u8>| r.lookup_node(k) is None,
    {
        let mut nodes: Vec<TrieNode<T>> = Vec::new();
        nodes.push(TrieNode { data: None, children: Vec::new(), terminal: None });
        let r = TrieTree { nodes, fold_case, separator };
        proof {
            assert forall|k: Seq<u8>| r.lookup_node(k) is None by {
                r.lemma_empty_walk(k);
            }
        }
        r
    }

    proof fn lemma_empty_walk(&self, k: Seq<u8>)
        requires
            self.nodes@.len() == 1,
            self.nodes@[0].children@.len() == 0,
            self.nodes@[0].terminal is None,
        ensures
            self.lookup_node(k) is None,
    {
        if k.len() == 0 {
        } else {
            assert(self.edge(0, k[0]) == Self::edge_in(self.nodes@[0].children@, k[0]));
        }
    }

    /// A byte as the tree matches it.
    fn fold_byte(&self, b: u8) -> (r: u8)
        ensures
            r == self.fold_spec(b),
    {
        if self.fold_case && 65 <= b && b <= 90 {
            b + 32
        } else {
            b
        }
    }

    /// The child reached from node `i` by an exact byte.
    fn edge_lookup(&self, i: usize, b: u8) -> (r: Option<usize>)
        requires
            self.wf(),
            i < self.nodes@.len(),
        ensures
            r == self.edge(i as int, b),
            r matches Some(c) ==> i < c < self.nodes@.len(),
    {
        let ghost all = self.nodes@[i as int].children@;
        let mut j: usize = 0;
        proof {
            assert(all.skip(0) =~= all);
        }
        while j < self.nodes[i].children.len()
            invariant
                j <= all.len(),
                all == self.nodes@[i as int].children@,
                self.wf(),
                i < self.nodes@.len(),
                Self::edge_in(all, b) == Self::edge_in(all.skip(j as int), b),
            decreases all.len() - j,
        {
            let (eb, child) = self.nodes[i].children[j];
            if eb == b {
                proof {
                    assert(self.node_wf(i as int));
                    assert(all.skip(j as int)[0] == all[j as int]);
                }
                return Some(child);
            }
            j = j + 1;
            proof {
                assert(all.skip(j - 1).skip(1) =~= all.skip(j as int));
            }
        }
        None
    }

    /// The tree only grows: `post` keeps every node of `pre`, every edge at
    /// its position, every payload, and every terminal edge already present.
    pub open spec fn extends(pre: Self, post: Self) -> bool {
        &&& post.fold_case == pre.fold_case
        &&& post.separator == pre.separator
        &&& pre.nodes@.len() <= post.nodes@.len()
        &&& forall|i: int|
            0 <= i < pre.nodes@.len() ==> {
                &&& (#[trigger] pre.nodes@[i]).children@.is_prefix_of(post.nodes@[i].children@)
                &&& (pre.nodes@[i].terminal is Some ==> post.nodes@[i].terminal
                    == pre.nodes@[i].terminal)
                &&& post.nodes@[i].data == pre.nodes@[i].data
            }
    }

    proof fn lemma_extends_trans(a: Self, b: Self, c: Self)
        requires
            Self::extends(a, b),
            Self::extends(b, c),
        ensures
            Self::extends(a, c),
    {
        assert forall|i: int| 0 <= i < a.nodes@.len() implies {
            &&& (#[trigger] a.nodes@[i]).children@.is_prefix_of(c.nodes@[i].children@)
            &&& (a.nodes@[i].terminal is Some ==> c.nodes@[i].terminal == a.nodes@[i].terminal)
            &&& c.nodes@[i].data == a.nodes@[i].data
        } by {
            assert(a.nodes@[i].children@.is_prefix_of(b.nodes@[i].children@));
            assert(b.nodes@[i].children@.is_prefix_of(c.nodes@[i].children@));
        }
    }

    proof fn lemma_edge_in_prefix(a: Seq<(u8, usize)>, b: Seq<(u8, usize)>, x: u8)
        requires
            a.is_prefix_of(b),
            Self::edge_in(a, x) is Some,
        ensures
            Self::edge_in(b, x) == Self::edge_in(a, x),
        decreases a.len(),
    {
        if a.len() == 0 {
        } else if a[0].0 == x {
            assert(b[0] == a[0]);
        } else {
            assert(a.skip(1).is_prefix_of(b.skip(1)));
            Self::lemma_edge_in_prefix(a.skip(1), b.skip(1), x);
        }
    }

    proof fn lemma_edge_in_none(a: Seq<(u8, usize)>, x: u8)
        requires
            Self::edge_in(a, x) is None,
        ensures
            forall|j: int| 0 <= j < a.len() ==> (#[trigger] a[j]).0 != x,
        decreases a.len(),
    {
        if a.len() > 0 {
            Self::lemma_edge_in_none(a.skip(1), x);
            assert forall|j: int| 0 <= j < a.len() implies (#[trigger] a[j]).0 != x by {
                if j > 0 {
                    assert(a[j] == a.skip(1)[j - 1]);
                }
            }
        }
    }

    proof fn lemma_edge_in_push_hit(a: Seq<(u8, usize)>, x: u8, c: usize)
        requires
            Self::edge_in(a, x) is None,
        ensures
            Self::edge_in(a.push((x, c)), x) == Some(c),
        decreases a.len(),
    {
        if a.len() == 0 {
            assert(a.push((x, c))[0] == (x, c));
        } else {
            assert(a.push((x, c))[0] == a[0]);
            assert(a.push((x, c)).skip(1) =~= a.skip(1).push((x, c)));
            Self::lemma_edge_in_push_hit(a.skip(1), x, c);
        }
    }

    proof fn lemma_extends_edge(pre: Self, post: Self, i: int, b: u8)
        requires
            Self::extends(pre, post),
            0 <= i < pre.nodes@.len(),
            pre.edge(i, b) is Some,
        ensures
            post.edge(i, b) == pre.edge(i, b),
    {
        Self::lemma_edge_in_prefix(pre.nodes@[i].children@, post.nodes@[i].children@, b);
    }

    proof fn lemma_extends_walk(pre: Self, post: Self, i: int, key: Seq<u8>)
        requires
            Self::extends(pre, post),
            pre.wf(),
            0 <= i < pre.nodes@.len(),
            pre.walk_from(i, key) is Some,
        ensures
            post.walk_from(i, key) == pre.walk_from(i, key),
        decreases key.len(),
    {
        if key.len() == 0 {
        } else {
            let c = pre.edge(i, key[0]).unwrap();
            assert(pre.node_wf(i));
            Self::lemma_edge_in_child(pre.nodes@[i].children@, key[0]);
            Self::lemma_extends_edge(pre, post, i, key[0]);
            Self::lemma_extends_walk(pre, post, c as int, key.skip(1));
        }
    }

    proof fn lemma_extends_lookup(pre: Self, post: Self, key: Seq<u8>)
        requires
            Self::extends(pre, post),
            pre.wf(),
        ensures
            pre.lookup_node(key) is Some ==> post.lookup_node(key) == pre.lookup_node(key),
            pre.lookup(key) is Some ==> post.lookup(key) == pre.lookup(key),
    {
        if pre.lookup_node(key) is Some {
            Self::lemma_extends_walk(pre, post, 0, key);
            Self::lemma_walk_in_range(pre, 0, key);
            let m = pre.walk_from(0, key).unwrap();
            assert(pre.node_wf(m));
        }
    }

    /// A successful walk from an in-range node ends at an in-range node.
    proof fn lemma_walk_in_range(t: Self, i: int, key: Seq<u8>)
        requires
            t.wf(),
            0 <= i < t.nodes@.len(),
            t.walk_from(i, key) is Some,
        ensures
            0 <= t.walk_from(i, key).unwrap() < t.nodes@.len(),
        decreases key.len(),
    {
        if key.len() == 0 {
        } else {
            assert(t.node_wf(i));
            let c = t.edge(i, key[0]).unwrap();
            Self::lemma_edge_in_child(t.nodes@[i].children@, key[0]);
            Self::lemma_walk_in_range(t, c as int, key.skip(1));
        }
    }

    /// A found edge is one of the node's edges.
    proof fn lemma_edge_in_child(a: Seq<(u8, usize)>, x: u8)
        requires
            Self::edge_in(a, x) is Some,
        ensures
            exists|j: int|
                0 <= j < a.len() && (#[trigger] a[j]).0 == x && a[j].1 == Self::edge_in(
                    a,
                    x,
                ).unwrap(),
        decreases a.len(),
    {
        if a.len() == 0 {
        } else if a[0].0 == x {
            assert(a[0].0 == x && a[0].1 == Self::edge_in(a, x).unwrap());
        } else {
            Self::lemma_edge_in_child(a.skip(1), x);
            let j = choose|j: int|
                0 <= j < a.skip(1).len() && (#[trigger] a.skip(1)[j]).0 == x && a.skip(1)[j].1
                    == Self::edge_in(a.skip(1), x).unwrap();
            assert(a[j + 1] == a.skip(1)[j]);
        }
    }

    /// Edges lead forward, so a walk never ends before its starting node.
    proof fn lemma_walk_lower_bound(t: Self, i: int, key: Seq<u8>)
        requires
            t.wf(),
            0 <= i < t.nodes@.len(),
            t.walk_from(i, key) is Some,
        ensures
            t.walk_from(i, key).unwrap() >= i,
        decreases key.len(),
    {
        if key.len() == 0 {
        } else {
            assert(t.node_wf(i));
            let c = t.edge(i, key[0]).unwrap();
            Self::lemma_edge_in_child(t.nodes@[i].children@, key[0]);
            Self::lemma_walk_lower_bound(t, c as int, key.skip(1));
        }
    }

    proof fn lemma_edge_in_target_bound(s: Seq<(u8, usize)>, x: u8, bound: int)
        requires
            Self::edge_in(s, x) is Some,
            forall|j: int| 0 <= j < s.len() ==> (#[trigger] s[j]).1 >= bound,
        ensures
            Self::edge_in(s, x).unwrap() >= bound,
        decreases s.len(),
    {
        if s.len() == 0 {
        } else if s[0].0 == x {
        } else {
            assert forall|j: int| 0 <= j < s.skip(1).len() implies (#[trigger] s.skip(1)[j]).1
                >= bound by {
                assert(s.skip(1)[j] == s[j + 1]);
            }
            Self::lemma_edge_in_target_bound(s.skip(1), x, bound);
        }
    }

    /// A match that lands on a low target was already present in the prefix,
    /// provided every appended entry targets at or above the bound.
    proof fn lemma_edge_in_first_match_prefix(
        a: Seq<(u8, usize)>,
        b: Seq<(u8, usize)>,
        x: u8,
        bound: int,
    )
        requires
            a.is_prefix_of(b),
            Self::edge_in(b, x) is Some,
            (Self::edge_in(b, x).unwrap() as int) < bound,
            forall|j: int| a.len() <= j < b.len() ==> (#[trigger] b[j]).1 >= bound,
        ensures
            Self::edge_in(a, x) == Self::edge_in(b, x),
        decreases b.len(),
    {
        if a.len() == 0 {
            assert forall|j: int| 0 <= j < b.len() implies (#[trigger] b[j]).1 >= bound by {}
            Self::lemma_edge_in_target_bound(b, x, bound);
            assert(false);
        } else if b[0].0 == x {
            assert(a[0] == b[0]);
        } else {
            assert(a.skip(1).is_prefix_of(b.skip(1)));
            assert forall|j: int| a.skip(1).len() <= j < b.skip(1).len() implies (#[trigger] b.skip(
                1,
            )[j]).1 >= bound by {
                assert(b.skip(1)[j] == b[j + 1]);
            }
            Self::lemma_edge_in_first_match_prefix(a.skip(1), b.skip(1), x, bound);
        }
    }

    /// A walk of the grown tree that ends among the original nodes never left
    /// them, provided every edge added to an original node targets a new one:
    /// such a walk already existed in the original tree.
    proof fn lemma_walk_back(pre: Self, post: Self, i: int, key: Seq<u8>)
        requires
            pre.wf(),
            post.wf(),
            Self::extends(pre, post),
            0 <= i < pre.nodes@.len(),
            post.walk_from(i, key) is Some,
            post.walk_from(i, key).unwrap() < pre.nodes@.len(),
            forall|ii: int, j: int|
                0 <= ii < pre.nodes@.len() && pre.nodes@[ii].children@.len() <= j
                    < post.nodes@[ii].children@.len() ==> (#[trigger] post.nodes@[ii].children@[j]).1
                    >= pre.nodes@.len(),
        ensures
            pre.walk_from(i, key) == post.walk_from(i, key),
        decreases key.len(),
    {
        if key.len() == 0 {
        } else {
            let m = post.walk_from(i, key).unwrap();
            let c = post.edge(i, key[0]).unwrap();
            assert(post.node_wf(i));
            Self::lemma_edge_in_child(post.nodes@[i].children@, key[0]);
            Self::lemma_walk_lower_bound(post, c as int, key.skip(1));
            assert((c as int) < pre.nodes@.len());
            assert(pre.nodes@[i].children@.is_prefix_of(post.nodes@[i].children@));
            assert forall|j: int|
                pre.nodes@[i].children@.len() <= j < post.nodes@[i].children@.len() implies (
            #[trigger] post.nodes@[i].children@[j]).1 >= pre.nodes@.len() by {}
            Self::lemma_edge_in_first_match_prefix(
                pre.nodes@[i].children@,
                post.nodes@[i].children@,
                key[0],
                pre.nodes@.len() as int,
            );
            Self::lemma_walk_back(pre, post, c as int, key.skip(1));
        }
    }

    /// Walking a concatenation walks the two parts in turn.
    proof fn lemma_walk_append(t: Self, i: int, a: Seq<u8>, b: Seq<u8>)
        ensures
            t.walk_from(i, a + b) == (match t.walk_from(i, a) {
                None => None::<int>,
                Some(m) => t.walk_from(m, b),
            }),
        decreases a.len(),
    {
        if a.len() == 0 {
            assert(a + b =~= b);
        } else {
            assert((a + b)[0] == a[0]);
            match t.edge(i, a[0]) {
                None => {
                    assert(t.walk_from(i, a + b) is None);
                },
                Some(c) => {
                    assert((a + b).skip(1) =~= a.skip(1) + b);
                    Self::lemma_walk_append(t, c as int, a.skip(1), b);
                },
            }
        }
    }

    /// Registers a key: walks or creates one edge per folded byte, then
    /// attaches the terminal edge. An existing registration is kept, not
    /// overwritten, and reported through the returned flag.
    pub fn push(&mut self, data: &[u8], t: T) -> (r: Result<(usize, bool), Error>)
        requires
            old(self).wf(),
        ensures
            final(self).wf(),
            final(self).fold_case == old(self).fold_case,
            final(self).separator == old(self).separator,
            Self::extends(*old(self), *final(self)),
            data@.len() == 0 ==> r == Err::<(usize, bool), Error>(Error::EmptyKey) && *final(self)
                == *old(self),
            data@.len() > 0 ==> (r matches Ok(p) && {
                let (idx, pre) = p;
                &&& idx < final(self).nodes@.len()
                &&& (!pre ==> idx >= old(self).nodes@.len())
                &&& final(self).lookup_node(old(self).fold_seq(data@)) == Some(idx as int)
                &&& (pre <==> old(self).lookup_node(old(self).fold_seq(data@)) is Some)
                &&& (pre ==> *final(self) == *old(self))
                &&& (!pre ==> final(self).lookup(old(self).fold_seq(data@)) == Some(t))
                &&& (forall|k: Seq<u8>|
                    old(self).lookup_node(k) is Some ==> final(self).lookup_node(k) == old(
                        self,
                    ).lookup_node(k))
                &&& (forall|k: Seq<u8>|
                    old(self).lookup(k) is Some ==> final(self).lookup(k) == old(self).lookup(k))
                &&& (forall|k: Seq<u8>|
                    final(self).lookup_node(k) is Some ==> old(self).lookup_node(k) is Some
                        || final(self).lookup_node(k) == final(self).lookup_node(
                        old(self).fold_seq(data@),
                    ))
            }),
    {
        if data.len() == 0 {
            return Err(Error::EmptyKey);
        }
        let ghost orig = *self;
        let ghost fkey = old(self).fold_seq(data@);
        let mut cur: usize = 0;
        let mut pos: usize = 0;
        let mut created = false;
        proof {
            assert(fkey.take(0) =~= Seq::<u8>::empty());
        }
        while pos < data.len()
            invariant
                orig.wf(),
                self.wf(),
                self.fold_case == orig.fold_case,
                self.separator == orig.separator,
                Self::extends(orig, *self),
                pos <= data@.len(),
                fkey == orig.fold_seq(data@),
                fkey.len() == data@.len(),
                cur < self.nodes@.len(),
                self.walk_from(0, fkey.take(pos as int)) == Some(cur as int),
                !created ==> *self == orig,
                created ==> orig.walk_from(0, fkey) is None,
                created ==> self.nodes@[cur as int].terminal is None,
                created ==> self.nodes@[cur as int].children@.len() == 0,
                forall|j: int|
                    orig.nodes@.len() <= j < self.nodes@.len() ==> (#[trigger] self.nodes@[j]).terminal
                        is None && self.nodes@[j].data is None,
                forall|i2: int|
                    0 <= i2 < orig.nodes@.len() ==> (#[trigger] self.nodes@[i2]).terminal
                        == orig.nodes@[i2].terminal,
                forall|i2: int, j: int|
                    0 <= i2 < orig.nodes@.len() && orig.nodes@[i2].children@.len() <= j
                        < self.nodes@[i2].children@.len() ==> (#[trigger] self.nodes@[i2].children@[j]).1
                        >= orig.nodes@.len(),
            decreases data@.len() - pos,
        {
            let fb = self.fold_byte(data[pos]);
            proof {
                assert(fkey[pos as int] == fb);
            }
            match self.edge_lookup(cur, fb) {
                Some(c) => {
                    proof {
                        Self::lemma_walk_append(
                            *self,
                            0,
                            fkey.take(pos as int),
                            seq![fkey[pos as int]],
                        );
                        assert(fkey.take(pos as int) + seq![fkey[pos as int]] =~= fkey.take(
                            pos + 1,
                        ));
                        assert(seq![fkey[pos as int]].skip(1) =~= Seq::<u8>::empty());
                        assert(self.walk_from(c as int, seq![fkey[pos as int]].skip(1)) == Some(
                            c as int,
                        ));
                        if created {
                            // a fresh chain node has no children, so no edge
                            // can be found from it
                            assert(Self::edge_in(self.nodes@[cur as int].children@, fb) is None);
                            assert(false);
                        }
                    }
                    cur = c;
                },
                None => {
                    proof {
                        if !created {
                            // the key fails in the original tree exactly here
                            Self::lemma_walk_append(orig, 0, fkey.take(pos as int), fkey.skip(pos as int));
                            assert(fkey.take(pos as int) + fkey.skip(pos as int) =~= fkey);
                            assert(fkey.skip(pos as int)[0] == fkey[pos as int]);
                            assert(orig.edge(cur as int, fkey[pos as int]) is None);
                            assert(orig.walk_from(cur as int, fkey.skip(pos as int)) is None);
                            assert(orig.walk_from(0, fkey) is None);
                        }
                    }
                    let ghost before = *self;
                    let nid = self.nodes.len();
                    self.nodes.push(TrieNode { data: None, children: Vec::new(), terminal: None });
                    let node_ref = &mut self.nodes[cur];
                    node_ref.children.push((fb, nid));
                    proof {
                        let after = *self;
                        // the new edge byte is not among the old ones
                        Self::lemma_edge_in_none(before.nodes@[cur as int].children@, fb);
                        assert forall|i: int| 0 <= i < after.nodes@.len() implies after.node_wf(i) by {
                            if i < before.nodes@.len() {
                                assert(before.node_wf(i));
                                if i == cur as int {
                                    assert(after.nodes@[i].children@ =~= before.nodes@[i].children@.push((fb, nid)));
                                } else {
                                    assert(after.nodes@[i] == before.nodes@[i]);
                                }
                            } else {
                                assert(after.nodes@[i].children@.len() == 0);
                            }
                        }
                        assert(Self::extends(before, after));
                        Self::lemma_extends_trans(orig, before, after);
                        Self::lemma_extends_walk(before, after, 0, fkey.take(pos as int));
                        assert(after.nodes@[cur as int].children@ =~= before.nodes@[cur as int].children@.push((fb, nid)));
                        Self::lemma_edge_in_push_hit(before.nodes@[cur as int].children@, fb, nid);
                        assert(after.edge(cur as int, fb) == Some(nid));
                        Self::lemma_walk_append(after, 0, fkey.take(pos as int), seq![fkey[pos as int]]);
                        assert(fkey.take(pos as int) + seq![fkey[pos as int]] =~= fkey.take(pos + 1));
                        assert(seq![fkey[pos as int]].skip(1) =~= Seq::<u8>::empty());
                        assert(after.walk_from(nid as int, seq![fkey[pos as int]].skip(1)) == Some(nid as int));
                    }
                    cur = nid;
                    created = true;
                },
            }
            pos = pos + 1;
        }
        proof {
            assert(fkey.take(data@.len() as int) =~= fkey);
        }
        let terminal = self.nodes[cur].terminal;
        match terminal {
            Some(tidx) => {
                // the terminal edge already existed: nothing was created
                proof {
                    assert(!created);
                    assert(*self == orig);
                    assert(self.node_wf(cur as int));
                }
                Ok((tidx, true))
            },
            None => {
                let ghost before = *self;
                let lid = self.nodes.len();
                self.nodes.push(
                    TrieNode { data: Some(t), children: Vec::new(), terminal: None },
                );
                let node_ref = &mut self.nodes[cur];
                node_ref.terminal = Some(lid);
                proof {
                    let after = *self;
                    assert forall|i: int| 0 <= i < after.nodes@.len() implies after.node_wf(i) by {
                        if i < before.nodes@.len() {
                            assert(before.node_wf(i));
                            if i == cur as int {
                                assert(after.nodes@[i].children@ =~= before.nodes@[i].children@);
                            } else {
                                assert(after.nodes@[i] == before.nodes@[i]);
                            }
                        } else {
                            assert(after.nodes@[i].children@.len() == 0);
                        }
                    }
                    assert(Self::extends(before, after));
                    Self::lemma_extends_trans(orig, before, after);
                    Self::lemma_extends_walk(before, after, 0, fkey);
                    assert(after.walk_from(0, fkey) == Some(cur as int));
                    assert(after.lookup_node(fkey) == Some(lid as int));
                    assert(after.lookup(fkey) == Some(t));
                    if !created {
                        // terminal was absent in the original tree
                        assert(orig.walk_from(0, fkey) == Some(cur as int));
                        assert(orig.lookup_node(fkey) is None);
                    }
                    assert forall|k: Seq<u8>| orig.lookup_node(k) is Some implies after.lookup_node(
                        k,
                    ) == orig.lookup_node(k) by {
                        Self::lemma_extends_lookup(orig, after, k);
                    }
                    assert forall|k: Seq<u8>| orig.lookup(k) is Some implies after.lookup(k)
                        == orig.lookup(k) by {
                        Self::lemma_extends_lookup(orig, after, k);
                    }
                    // no key gained a terminal, except by sharing the new one
                    let gl = orig.nodes@.len() as int;
                    assert forall|k: Seq<u8>| after.lookup_node(k) is Some implies
                        orig.lookup_node(k) is Some || after.lookup_node(k) == after.lookup_node(
                        fkey,
                    ) by {
                        let m = after.walk_from(0, k).unwrap();
                        Self::lemma_walk_in_range(after, 0, k);
                        if m == cur as int {
                            assert(after.lookup_node(k) == Some(lid as int));
                        } else if m >= gl {
                            // chain nodes and the new leaf carry no terminal
                            assert(after.nodes@[m].terminal == before.nodes@[m].terminal
                                || m == lid as int);
                            assert(false);
                        } else {
                            Self::lemma_walk_back(orig, after, 0, k);
                            assert(after.nodes@[m].terminal == orig.nodes@[m].terminal);
                        }
                    }
                }
                Ok((lid, false))
            },
        }
    }

    /// Matches a key against the tree without consuming any stream, stopping
    /// at the separator byte if one occurs before the key ends. On success
    /// returns the terminal node; `length` receives the number of bytes
    /// examined, the separator included.
    pub fn find(&self, data: &[u8], length: &mut usize) -> (r: Result<usize, Error>)
        requires
            self.wf(),
        ensures
            data@.len() == 0 ==> r == Err::<usize, Error>(Error::EmptyKey) && *final(length)
                == *old(length),
            data@.len() > 0 ==> (match self.scan_from(0, data@) {
                ScanResult::Sep { node, used } => {
                    &&& *final(length) == used + 1
                    &&& (match self.nodes@[node].terminal {
                        Some(t) => r == Ok::<usize, Error>(t),
                        None => r == Err::<usize, Error>(Error::NoMatch),
                    })
                },
                ScanResult::End { node, used } => {
                    &&& *final(length) == used
                    &&& (match self.nodes@[node].terminal {
                        Some(t) => r == Ok::<usize, Error>(t),
                        None => r == Err::<usize, Error>(Error::NoMatch),
                    })
                },
                ScanResult::Miss { used } => {
                    &&& *final(length) == used + 1
                    &&& r == Err::<usize, Error>(Error::NoMatch)
                },
            }),
            r matches Ok(t) ==> t < self.nodes@.len(),
    {
        if data.len() == 0 {
            return Err(Error::EmptyKey);
        }
        let ghost whole = data@;
        let mut cur: usize = 0;
        let mut pos: usize = 0;
        proof {
            assert(whole.skip(0) =~= whole);
        }
        while pos < data.len()
            invariant
                self.wf(),
                whole == data@,
                0 < whole.len(),
                pos <= whole.len(),
                cur < self.nodes@.len(),
                self.scan_from(0, whole) == Self::scan_shift(
                    self.scan_from(cur as int, whole.skip(pos as int)),
                    pos as nat,
                ),
            decreases whole.len() - pos,
        {
            let b = data[pos];
            proof {
                assert(whole.skip(pos as int)[0] == b);
            }
            if b == self.separator {
                *length = pos + 1;
                return self.terminal_lookup(cur);
            }
            let fb = self.fold_byte(b);
            match self.edge_lookup(cur, fb) {
                None => {
                    *length = pos + 1;
                    return Err(Error::NoMatch);
                },
                Some(c) => {
                    proof {
                        assert(whole.skip(pos as int).skip(1) =~= whole.skip(pos + 1));
                    }
                    cur = c;
                },
            }
            pos = pos + 1;
        }
        proof {
            assert(whole.skip(whole.len() as int) =~= Seq::<u8>::empty());
        }
        *length = pos;
        self.terminal_lookup(cur)
    }

    /// The node's end-of-token child, or `NoMatch` where the token was never
    /// registered.
    fn terminal_lookup(&self, cur: usize) -> (r: Result<usize, Error>)
        requires
            self.wf(),
            cur < self.nodes@.len(),
        ensures
            match self.nodes@[cur as int].terminal {
                Some(t) => r == Ok::<usize, Error>(t),
                None => r == Err::<usize, Error>(Error::NoMatch),
            },
            r matches Ok(t) ==> t < self.nodes@.len(),
    {
        proof {
            assert(self.node_wf(cur as int));
        }
        match self.nodes[cur].terminal {
            Some(t) => Ok(t),
            None => Err(Error::NoMatch),
        }
    }

    /// Matches a token directly against a stream, consuming each matched byte
    /// and the separator that ends the token, but never a byte that failed to
    /// match. `length` receives the number of bytes examined, the separator
    /// included. Returns `NeedInput` when the backlog runs out before the
    /// separator on a still-open stream, with the matched prefix already
    /// consumed; resuming byte by byte is what [`TrieTree::matched`] is for.
    pub fn find_from_stream(&self, stream: &mut Stream, length: &mut usize) -> (r: Result<
        Pulled<usize>,
        Error,
    >)
        requires
            self.wf(),
            old(stream).count + old(stream).buffer@.len() <= usize::MAX,
        ensures
            final(stream).closed == old(stream).closed,
            match self.scan_from(0, old(stream).buffer@) {
                ScanResult::Sep { node, used } => {
                    &&& final(stream).buffer@ == old(stream).buffer@.skip(used + 1 as int)
                    &&& final(stream).count == old(stream).count + used + 1
                    &&& *final(length) == used + 1
                    &&& (match self.nodes@[node].terminal {
                        Some(t) => r matches Ok(p) && p == (Pulled::Ready(t)),
                        None => r == Err::<Pulled<usize>, Error>(Error::NoMatch),
                    })
                },
                ScanResult::End { node, used } => {
                    &&& final(stream).buffer@ == old(stream).buffer@.skip(used as int)
                    &&& final(stream).count == old(stream).count + used
                    &&& *final(length) == used
                    &&& (old(stream).closed ==> r == Err::<Pulled<usize>, Error>(Error::NoMatch))
                    &&& (!old(stream).closed ==> (r matches Ok(p) && p is NeedInput))
                },
                ScanResult::Miss { used } => {
                    &&& final(stream).buffer@ == old(stream).buffer@.skip(used as int)
                    &&& final(stream).count == old(stream).count + used
                    &&& *final(length) == used + 1
                    &&& r == Err::<Pulled<usize>, Error>(Error::NoMatch)
                },
            },
            r matches Ok(Pulled::Ready(t)) ==> t < self.nodes@.len(),
    {
        let ghost whole = old(stream).buffer@;
        let mut cur: usize = 0;
        let mut pos: usize = 0;
        proof {
            assert(whole.skip(0) =~= whole);
        }
        loop
            invariant
                self.wf(),
                whole == old(stream).buffer@,
                pos <= whole.len(),
                cur < self.nodes@.len(),
                stream.closed == old(stream).closed,
                stream.buffer@ == whole.skip(pos as int),
                stream.count == old(stream).count + pos,
                old(stream).count + whole.len() <= usize::MAX,
                self.scan_from(0, whole) == Self::scan_shift(
                    self.scan_from(cur as int, whole.skip(pos as int)),
                    pos as nat,
                ),
            decreases whole.len() - pos,
        {
            let b = match stream.lookup_next_one() {
                Err(_) => {
                    // the backlog ran out on a closed stream
                    proof {
                        assert(whole.skip(pos as int).len() == 0);
                        assert(self.scan_from(cur as int, whole.skip(pos as int))
                            == (ScanResult::End { node: cur as int, used: 0 }));
                    }
                    *length = pos;
                    return Err(Error::NoMatch);
                },
                Ok(Pulled::NeedInput) => {
                    proof {
                        assert(whole.skip(pos as int).len() == 0);
                        assert(self.scan_from(cur as int, whole.skip(pos as int))
                            == (ScanResult::End { node: cur as int, used: 0 }));
                    }
                    *length = pos;
                    return Ok(Pulled::NeedInput);
                },
                Ok(Pulled::Ready(b)) => b,
            };
            proof {
                assert(whole.skip(pos as int)[0] == b);
            }
            if b == self.separator {
                let _ = stream.skip_next_one();
                proof {
                    assert(whole.skip(pos as int).skip(1) =~= whole.skip(pos + 1));
                }
                *length = pos + 1;
                return (match self.terminal_lookup(cur) {
                    Ok(t) => Ok(Pulled::Ready(t)),
                    Err(e) => Err(e),
                });
            }
            let fb = self.fold_byte(b);
            match self.edge_lookup(cur, fb) {
                None => {
                    proof {
                        assert(self.scan_from(cur as int, whole.skip(pos as int))
                            == (ScanResult::Miss { used: 0 }));
                    }
                    *length = pos + 1;
                    return Err(Error::NoMatch);
                },
                Some(c) => {
                    let _ = stream.skip_next_one();
                    proof {
                        assert(whole.skip(pos as int).skip(1) =~= whole.skip(pos + 1));
                    }
                    cur = c;
                },
            }
            pos = pos + 1;
        }
    }

    /// A stateful matcher positioned at the tree root, for callers whose
    /// bytes arrive one at a time from a source that is not a [`Stream`].
    pub fn matched(&self) -> (r: Match)
        ensures
            r.node == 0,
    {
        Match { node: 0 }
    }

    /// Shared read access to a node.
    pub fn node_ref(&self, i: usize) -> (r: &TrieNode<T>)
        requires
            i < self.nodes@.len(),
        ensures
            *r == self.nodes@[i as int],
    {
        &self.nodes[i]
    }

    /// Removes and returns the payload of node `i`, leaving the node empty.
    pub fn take_node_data(&mut self, i: usize) -> (r: Option<T>)
        requires
            old(self).wf(),
            i < old(self).nodes@.len(),
        ensures
            final(self).wf(),
            r == old(self).nodes@[i as int].data,
            final(self).fold_case == old(self).fold_case,
            final(self).separator == old(self).separator,
            final(self).nodes@.len() == old(self).nodes@.len(),
            final(self).nodes@[i as int].data is None,
            final(self).nodes@[i as int].children == old(self).nodes@[i as int].children,
            final(self).nodes@[i as int].terminal == old(self).nodes@[i as int].terminal,
            forall|j: int|
                0 <= j < old(self).nodes@.len() && j != i ==> final(self).nodes@[j] == old(
                    self,
                ).nodes@[j],
    {
        let node_ref = &mut self.nodes[i];
        let r = node_ref.data.take();
        proof {
            Self::lemma_same_shape_wf(*old(self), *self);
        }
        r
    }

    /// Stores a payload at node `i`, returning the previous one.
    pub fn set_node_data(&mut self, i: usize, d: Option<T>) -> (r: Option<T>)
        requires
            old(self).wf(),
            i < old(self).nodes@.len(),
        ensures
            final(self).wf(),
            r == old(self).nodes@[i as int].data,
            final(self).fold_case == old(self).fold_case,
            final(self).separator == old(self).separator,
            final(self).nodes@.len() == old(self).nodes@.len(),
            final(self).nodes@[i as int].data == d,
            final(self).nodes@[i as int].children == old(self).nodes@[i as int].children,
            final(self).nodes@[i as int].terminal == old(self).nodes@[i as int].terminal,
            forall|j: int|
                0 <= j < old(self).nodes@.len() && j != i ==> final(self).nodes@[j] == old(
                    self,
                ).nodes@[j],
    {
        let node_ref = &mut self.nodes[i];
        let r = node_ref.data_mut(d);
        proof {
            Self::lemma_same_shape_wf(*old(self), *self);
        }
        r
    }

    /// A registered terminal node lies in the arena.
    pub proof fn lemma_lookup_node_in_range(&self, key: Seq<u8>)
        requires
            self.wf(),
            self.lookup_node(key) is Some,
        ensures
            0 <= self.lookup_node(key).unwrap() < self.nodes@.len(),
    {
        Self::lemma_walk_in_range(*self, 0, key);
        let m = self.walk_from(0, key).unwrap();
        assert(self.node_wf(m));
    }

    /// Scanning a key that contains no separator byte walks its folded form.
    proof fn lemma_scan_no_sep(t: Self, i: int, k: Seq<u8>)
        requires
            forall|j: int| 0 <= j < k.len() ==> k[j] != t.separator,
            t.walk_from(i, t.fold_seq(k)) is Some,
        ensures
            t.scan_from(i, k) == (ScanResult::End {
                node: t.walk_from(i, t.fold_seq(k)).unwrap(),
                used: k.len(),
            }),
        decreases k.len(),
    {
        if k.len() == 0 {
            assert(t.fold_seq(k).len() == 0);
        } else {
            assert(t.fold_seq(k)[0] == t.fold_spec(k[0]));
            let c = t.edge(i, t.fold_spec(k[0])).unwrap();
            assert(t.fold_seq(k).skip(1) =~= t.fold_seq(k.skip(1)));
            Self::lemma_scan_no_sep(t, c as int, k.skip(1));
        }
    }

    /// Law: a registered key is found again. For every key without the
    /// separator byte whose folded form carries a payload (which
    /// [`TrieTree::push`] ensures after a successful registration), a static
    /// or streaming match of that key ends at a terminal node holding exactly
    /// that payload.
    pub proof fn lemma_push_find_roundtrip(t: Self, k: Seq<u8>)
        requires
            t.wf(),
            forall|j: int| 0 <= j < k.len() ==> k[j] != t.separator,
            t.lookup(t.fold_seq(k)) is Some,
        ensures
            t.scan_from(0, k) matches ScanResult::End { node, used } && used == k.len()
                && t.nodes@[node].terminal is Some
                && t.nodes@[t.nodes@[node].terminal.unwrap() as int].data == t.lookup(
                t.fold_seq(k),
            ),
    {
        Self::lemma_scan_no_sep(t, 0, k);
        Self::lemma_walk_in_range(t, 0, t.fold_seq(k));
        let m = t.walk_from(0, t.fold_seq(k)).unwrap();
        assert(t.node_wf(m));
    }

    /// Law: matching folds case exactly as registration does. Two keys whose
    /// folded forms agree are matched identically, byte position by byte
    /// position, provided the separator byte is not an ASCII letter (space
    /// and colon are not).
    pub proof fn lemma_scan_fold_insensitive(t: Self, i: int, k1: Seq<u8>, k2: Seq<u8>)
        requires
            t.fold_seq(k1) == t.fold_seq(k2),
            !(65 <= t.separator <= 90),
            !(97 <= t.separator <= 122),
        ensures
            t.scan_from(i, k1) == t.scan_from(i, k2),
        decreases k1.len(),
    {
        assert(k1.len() == t.fold_seq(k1).len());
        assert(k2.len() == t.fold_seq(k2).len());
        if k1.len() == 0 {
        } else {
            assert(t.fold_seq(k1)[0] == t.fold_spec(k1[0]));
            assert(t.fold_seq(k2)[0] == t.fold_spec(k2[0]));
            // with a non-letter separator, folding cannot create or destroy it
            assert(k1[0] == t.separator <==> t.fold_spec(k1[0]) == t.separator);
            assert(k2[0] == t.separator <==> t.fold_spec(k2[0]) == t.separator);
            if k1[0] == t.separator {
            } else {
                assert(t.fold_seq(k1).skip(1) =~= t.fold_seq(k1.skip(1)));
                assert(t.fold_seq(k2).skip(1) =~= t.fold_seq(k2.skip(1)));
                Self::lemma_scan_fold_insensitive(t, i, k1.skip(1), k2.skip(1));
                match t.edge(i, t.fold_spec(k1[0])) {
                    None => {},
                    Some(c) => {
                        Self::lemma_scan_fold_insensitive(t, c as int, k1.skip(1), k2.skip(1));
                    },
                }
            }
        }
    }

    /// Walks only look at edges, never at payloads: two trees of the same
    /// shape walk alike.
    proof fn lemma_same_shape_walk(a: Self, b: Self, i: int, key: Seq<u8>)
        requires
            a.wf(),
            b.nodes@.len() == a.nodes@.len(),
            forall|j: int|
                0 <= j < a.nodes@.len() ==> (#[trigger] b.nodes@[j]).children == a.nodes@[j].children
                    && b.nodes@[j].terminal == a.nodes@[j].terminal,
            0 <= i < a.nodes@.len(),
        ensures
            b.walk_from(i, key) == a.walk_from(i, key),
        decreases key.len(),
    {
        if key.len() == 0 {
        } else {
            assert(b.nodes@[i].children == a.nodes@[i].children);
            assert(b.nodes@[i].children@ == a.nodes@[i].children@);
            match a.edge(i, key[0]) {
                None => {},
                Some(c) => {
                    assert(a.node_wf(i));
                    Self::lemma_edge_in_child(a.nodes@[i].children@, key[0]);
                    Self::lemma_same_shape_walk(a, b, c as int, key.skip(1));
                },
            }
        }
    }

    /// Two trees of the same shape register the same terminal node for every
    /// key.
    pub proof fn lemma_same_shape_lookup_node(a: Self, b: Self, key: Seq<u8>)
        requires
            a.wf(),
            b.nodes@.len() == a.nodes@.len(),
            forall|j: int|
                0 <= j < a.nodes@.len() ==> (#[trigger] b.nodes@[j]).children == a.nodes@[j].children
                    && b.nodes@[j].terminal == a.nodes@[j].terminal,
        ensures
            b.lookup_node(key) == a.lookup_node(key),
    {
        Self::lemma_same_shape_walk(a, b, 0, key);
        if a.walk_from(0, key) is Some {
            Self::lemma_walk_in_range(a, 0, key);
            let m = a.walk_from(0, key).unwrap();
            assert(b.nodes@[m].terminal == a.nodes@[m].terminal);
        }
    }

    /// Well-formedness only looks at edges, never at payloads.
    proof fn lemma_same_shape_wf(a: Self, b: Self)
        requires
            a.wf(),
            b.fold_case == a.fold_case,
            b.nodes@.len() == a.nodes@.len(),
            forall|j: int|
                0 <= j < a.nodes@.len() ==> (#[trigger] b.nodes@[j]).children == a.nodes@[j].children
                    && b.nodes@[j].terminal == a.nodes@[j].terminal,
        ensures
            b.wf(),
    {
        assert forall|j: int| 0 <= j < b.nodes@.len() implies b.node_wf(j) by {
            assert(a.node_wf(j));
            assert(b.nodes@[j].children == a.nodes@[j].children);
            assert(b.nodes@[j].children@ == a.nodes@[j].children@);
            assert(b.nodes@[j].terminal == a.nodes@[j].terminal);
        }
    }
}

/// A stateful incremental matcher over a [`TrieTree`]: fed one byte at a
/// time, it advances one edge per byte and reports whether the edge existed.
pub struct Match {
    /// The arena index of the node the fed bytes have reached.
    pub node: usize,
}

impl Match {
    /// A matcher positioned at the given node, normally the root.
    pub fn new(node: usize) -> (r: Match)
        ensures
            r.node == node,
    {
        Match { node }
    }

    /// Feeds one byte: follows the matching (folded) edge and reports whether
    /// one existed. `false` leaves the position unchanged; the caller must
    /// stop feeding.
    pub fn matched<T>(&mut self, tree: &TrieTree<T>, b: &u8) -> (r: bool)
        requires
            tree.wf(),
            old(self).node < tree.nodes@.len(),
        ensures
            final(self).node < tree.nodes@.len(),
            match tree.edge(old(self).node as int, tree.fold_spec(*b)) {
                Some(c) => r && final(self).node == c,
                None => !r && *final(self) == *old(self),
            },
    {
        let fb = tree.fold_byte(*b);
        match tree.edge_lookup(self.node, fb) {
            Some(c) => {
                self.node = c;
                true
            },
            None => false,
        }
    }

    /// The node at the accumulated terminal edge, available once the caller
    /// decides matching is complete and knows the token was registered.
    pub fn get_clone_unwrap<T>(&self, tree: &TrieTree<T>) -> (r: usize)
        requires
            tree.wf(),
            self.node < tree.nodes@.len(),
            tree.nodes@[self.node as int].terminal is Some,
        ensures
            Some(r) == tree.nodes@[self.node as int].terminal,
            r < tree.nodes@.len(),
    {
        proof {
            assert(tree.node_wf(self.node as int));
        }
        match tree.nodes[self.node].terminal {
            Some(t) => t,
            None => {
                proof {
                    assert(false);
                }
                0
            },
        }
    }

    /// The node at the terminal edge, or `None` where the token fed so far
    /// was never registered.
    pub fn terminal<T>(&self, tree: &TrieTree<T>) -> (r: Option<usize>)
        requires
            tree.wf(),
            self.node < tree.nodes@.len(),
        ensures
            r == tree.nodes@[self.node as int].terminal,
            r matches Some(t) ==> t < tree.nodes@.len(),
    {
        proof {
            assert(tree.node_wf(self.node as int));
        }
        tree.nodes[self.node].terminal
    }
}

} // verus!


