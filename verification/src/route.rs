use vstd::prelude::*;

use crate::{Error, Method, RegisterOptions};
use crate::stream::{Pulled, Stream};
use crate::trie::{ScanResult, TrieTree};

verus! {

/// What one registration attaches to a (path, method) pair: a handler
/// creator, an optional shared context, and the decoding options. The
/// creator and context payload types are the caller's.
pub struct Data<H, C> {
    pub creator: H,
    pub context: Option<C>,
    pub options: RegisterOptions,
}

impl<H, C> Data<H, C> {
    pub fn new(creator: H, context: Option<C>, options: RegisterOptions) -> (r: Self)
        ensures
            r == (Data { creator, context, options }),
    {
        Self { creator, context, options }
    }
}

/// The per-path method table: at most one entry per method, first
/// registration wins.
pub struct MethodRoute<H, C> {
    pub handlers: Vec<(Method, Data<H, C>)>,
}

impl<H, C> MethodRoute<H, C> {
    /// The entry registered for a method, scanning registration order.
    pub open spec fn find_method_spec(s: Seq<(Method, Data<H, C>)>, m: Method) -> Option<
        Data<H, C>,
    >
        decreases s.len(),
    {
        if s.len() == 0 {
            None
        } else if s[0].0 == m {
            Some(s[0].1)
        } else {
            Self::find_method_spec(s.skip(1), m)
        }
    }

    proof fn lemma_find_method_push(s: Seq<(Method, Data<H, C>)>, p: (Method, Data<H, C>), q: Method)
        ensures
            Self::find_method_spec(s.push(p), q) == (match Self::find_method_spec(s, q) {
                Some(x) => Some(x),
                None => if p.0 == q {
                    Some(p.1)
                } else {
                    None
                },
            }),
        decreases s.len(),
    {
        if s.len() == 0 {
            assert(s.push(p)[0] == p);
            assert(s.push(p).skip(1) =~= Seq::<(Method, Data<H, C>)>::empty());
            assert(Self::find_method_spec(s.push(p).skip(1), q) is None);
        } else {
            assert(s.push(p)[0] == s[0]);
            assert(s.push(p).skip(1) =~= s.skip(1).push(p));
            Self::lemma_find_method_push(s.skip(1), p, q);
        }
    }

    pub fn new() -> (r: Self)
        ensures
            r.handlers@ == Seq::<(Method, Data<H, C>)>::empty(),
    {
        Self { handlers: Vec::new() }
    }

    /// Registers an entry for a method; a second registration of the same
    /// method is refused and the first kept.
    pub fn insert(&mut self, method: Method, data: Data<H, C>) -> (r: Result<(), Error>)
        ensures
            match Self::find_method_spec(old(self).handlers@, method) {
                Some(_) => r == Err::<(), Error>(Error::MethodAlreadyRegistered) && *final(self)
                    == *old(self),
                None => {
                    &&& r == Ok::<(), Error>(())
                    &&& final(self).handlers@ == old(self).handlers@.push((method, data))
                    &&& Self::find_method_spec(final(self).handlers@, method) == Some(data)
                    &&& forall|m2: Method|
                        m2 != method ==> Self::find_method_spec(final(self).handlers@, m2)
                            == Self::find_method_spec(old(self).handlers@, m2)
                },
            },
    {
        if self.contains_method(&method) {
            return Err(Error::MethodAlreadyRegistered);
        }
        let ghost s = self.handlers@;
        let ghost p = (method, data);
        self.handlers.push((method, data));
        proof {
            assert forall|q: Method| true implies Self::find_method_spec(s.push(p), q) == (
            match Self::find_method_spec(s, q) {
                Some(x) => Some(x),
                None => if p.0 == q {
                    Some(p.1)
                } else {
                    None
                },
            }) by {
                Self::lemma_find_method_push(s, p, q);
            }
        }
        Ok(())
    }

    /// Whether a method already has an entry.
    fn contains_method(&self, method: &Method) -> (r: bool)
        ensures
            r == (Self::find_method_spec(self.handlers@, *method) is Some),
    {
        let ghost all = self.handlers@;
        let mut j: usize = 0;
        proof {
            assert(all.skip(0) =~= all);
        }
        while j < self.handlers.len()
            invariant
                j <= all.len(),
                all == self.handlers@,
                Self::find_method_spec(all, *method) == Self::find_method_spec(
                    all.skip(j as int),
                    *method,
                ),
            decreases all.len() - j,
        {
            proof {
                assert(all.skip(j as int)[0] == all[j as int]);
            }
            if self.handlers[j].0 == *method {
                return true;
            }
            j = j + 1;
            proof {
                assert(all.skip(j - 1).skip(1) =~= all.skip(j as int));
            }
        }
        false
    }

    /// The entry registered for a method, or `MethodNotAllowed`.
    pub fn find(&self, method: &Method) -> (r: Result<&Data<H, C>, Error>)
        ensures
            match Self::find_method_spec(self.handlers@, *method) {
                Some(d) => r matches Ok(rd) && *rd == d,
                None => r matches Err(e) && e == Error::MethodNotAllowed,
            },
    {
        let ghost all = self.handlers@;
        let mut j: usize = 0;
        proof {
            assert(all.skip(0) =~= all);
        }
        while j < self.handlers.len()
            invariant
                j <= all.len(),
                all == self.handlers@,
                Self::find_method_spec(all, *method) == Self::find_method_spec(
                    all.skip(j as int),
                    *method,
                ),
            decreases all.len() - j,
        {
            proof {
                assert(all.skip(j as int)[0] == all[j as int]);
            }
            if self.handlers[j].0 == *method {
                return Ok(&self.handlers[j].1);
            }
            j = j + 1;
            proof {
                assert(all.skip(j - 1).skip(1) =~= all.skip(j as int));
            }
        }
        Err(Error::MethodNotAllowed)
    }
}

/// The router: a case-sensitive, space-terminated path trie whose payloads
/// are per-path method tables.
pub struct Route<H, C> {
    pub tree: TrieTree<MethodRoute<H, C>>,
}

impl<H, C> Route<H, C> {
    pub open spec fn wf(&self) -> bool {
        self.tree.wf()
    }

    /// The entry the router holds for a path and method.
    pub open spec fn route_lookup(&self, path: Seq<u8>, m: Method) -> Option<Data<H, C>> {
        match self.tree.lookup_node(self.tree.fold_seq(path)) {
            None => None,
            Some(t) => match self.tree.nodes@[t].data {
                None => None,
                Some(mr) => MethodRoute::find_method_spec(mr.handlers@, m),
            },
        }
    }

    pub fn new() -> (r: Self)
        ensures
            r.wf(),
            !r.tree.fold_case,
            r.tree.separator == 32u8,
            forall|p: Seq<u8>, m: Method| r.route_lookup(p, m) is None,
    {
        let r = Route { tree: TrieTree::new(false, 32) };
        r
    }

    /// Every path whose terminal trie node differs from the just-registered
    /// path's resolves in `post` exactly as it did in `pre`.
    pub open spec fn preserves_other_paths(pre: Self, post: Self, path: Seq<u8>) -> bool {
        forall|p2: Seq<u8>, m2: Method|
            (pre.tree.lookup_node(pre.tree.fold_seq(p2)) is Some && pre.tree.lookup_node(
                pre.tree.fold_seq(p2),
            ) != pre.tree.lookup_node(pre.tree.fold_seq(path))) ==> #[trigger] post.route_lookup(
                p2,
                m2,
            ) == pre.route_lookup(p2, m2)
    }

    /// What a successful registration guarantees: the new entry resolves,
    /// other methods at the path are untouched, and other paths resolve as
    /// before.
    pub open spec fn register_ok_post(
        pre: Self,
        post: Self,
        path: Seq<u8>,
        method: Method,
        d: Data<H, C>,
    ) -> bool {
        &&& post.route_lookup(path, method) == Some(d)
        &&& (forall|m2: Method|
            m2 != method ==> post.route_lookup(path, m2) == pre.route_lookup(path, m2))
        &&& Self::preserves_other_paths(pre, post, path)
        &&& (forall|p2: Seq<u8>, m2: Method|
            #[trigger] post.route_lookup(p2, m2) is Some ==> pre.route_lookup(p2, m2) is Some
                || post.tree.lookup_node(post.tree.fold_seq(p2)) == post.tree.lookup_node(
                post.tree.fold_seq(path),
            ))
    }

    /// Registers a handler for a (path, method) pair. The path is inserted
    /// into the path trie on first use; a duplicate (path, method) pair is
    /// refused with `MethodAlreadyRegistered` and leaves every registration
    /// as it was.
    pub fn register(
        &mut self,
        path: &[u8],
        method: Method,
        creator: H,
        context: Option<C>,
        options: RegisterOptions,
    ) -> (r: Result<(), Error>)
        requires
            old(self).wf(),
        ensures
            final(self).wf(),
            path@.len() == 0 ==> r == Err::<(), Error>(Error::EmptyKey) && *final(self) == *old(
                self,
            ),
            path@.len() > 0 ==> {
                &&& (r == Ok::<(), Error>(()) <==> old(self).route_lookup(path@, method) is None)
                &&& (r is Err ==> r == Err::<(), Error>(Error::MethodAlreadyRegistered))
                &&& (r is Err ==> forall|p2: Seq<u8>, m2: Method|
                    final(self).route_lookup(p2, m2) == old(self).route_lookup(p2, m2))
                &&& (r is Ok ==> Self::register_ok_post(
                    *old(self),
                    *final(self),
                    path@,
                    method,
                    (Data { creator, context, options }),
                ))
            },
    {
        let ghost orig = *self;
        let ghost fpath = old(self).tree.fold_seq(path@);
        let (idx, pre) = (match self.tree.push(path, MethodRoute::new()) {
            Ok(v) => v,
            Err(e) => {
                return Err(e);
            },
        });
        let ghost t1 = *self;
        let taken = self.tree.take_node_data(idx);
        let ghost t2 = *self;
        let mut mr = (match taken {
            Some(m) => m,
            None => MethodRoute::new(),
        });
        let insert_result = mr.insert(method, Data { creator, context, options });
        let _ = self.tree.set_node_data(idx, Some(mr));
        let ghost t3 = *self;
        proof {
            // the trie's shape never changes after the push, so every walk
            // and terminal stays as the push left it
            assert forall|k: Seq<u8>| true implies t3.tree.lookup_node(k) == t1.tree.lookup_node(
                k,
            ) by {
                TrieTree::lemma_same_shape_lookup_node(t1.tree, t2.tree, k);
                TrieTree::lemma_same_shape_lookup_node(t1.tree, t3.tree, k);
            }
            // folding is the identity configuration here and never changes
            assert forall|k: Seq<u8>| true implies t3.tree.fold_seq(k) == orig.tree.fold_seq(k) by {
                assert(t3.tree.fold_seq(k) =~= orig.tree.fold_seq(k));
            }
            assert forall|k: Seq<u8>| true implies t1.tree.fold_seq(k) == orig.tree.fold_seq(k) by {
                assert(t1.tree.fold_seq(k) =~= orig.tree.fold_seq(k));
            }
            assert(t1.tree.lookup_node(fpath) == Some(idx as int));
        }
        match insert_result {
            Ok(()) => {
                proof {
                    assert(t3.tree.nodes@[idx as int].data == Some(mr));
                    // the old entry for (path, method) was absent: either the
                    // path was new, or its table had no such method
                    if pre {
                        assert(orig.tree.lookup_node(fpath) == Some(idx as int));
                    } else {
                        assert(orig.tree.lookup_node(fpath) is None);
                    }
                    assert forall|j: int|
                        0 <= j < orig.tree.nodes@.len() && j != idx implies #[trigger] t3.tree.nodes@[j].data
                        == orig.tree.nodes@[j].data by {
                        assert(t1.tree.nodes@[j].data == orig.tree.nodes@[j].data);
                        assert(t2.tree.nodes@[j] == t1.tree.nodes@[j]);
                        assert(t3.tree.nodes@[j] == t2.tree.nodes@[j]);
                    }
                    lemma_register_preserves_distinct::<H, C>(orig, t1, t3, idx, fpath);
                    // no unrelated path became resolvable: a resolvable path
                    // either was resolvable before or shares the registered
                    // path's terminal node
                    assert forall|p2: Seq<u8>, m2: Method| #[trigger] t3.route_lookup(p2, m2)
                        is Some implies orig.route_lookup(p2, m2) is Some || t3.tree.lookup_node(
                        t3.tree.fold_seq(p2),
                    ) == t3.tree.lookup_node(t3.tree.fold_seq(path@)) by {
                        let fp2 = orig.tree.fold_seq(p2);
                        assert(t3.tree.fold_seq(p2) == fp2);
                        assert(t3.tree.fold_seq(path@) == fpath);
                        let n2 = t3.tree.lookup_node(fp2).unwrap();
                        assert(t1.tree.lookup_node(fp2) == Some(n2));
                        assert(t3.tree.lookup_node(fpath) == Some(idx as int));
                        if orig.tree.lookup_node(fp2) is Some {
                            assert(orig.tree.lookup_node(fp2) == Some(n2));
                            orig.tree.lemma_lookup_node_in_range(fp2);
                            if n2 != idx as int {
                                assert(t3.tree.nodes@[n2].data == orig.tree.nodes@[n2].data);
                            }
                        } else {
                            // the push's frame property: a fresh terminal is
                            // the registered one
                            assert(t1.tree.lookup_node(fp2) == t1.tree.lookup_node(fpath));
                        }
                    }
                }
                Ok(())
            },
            Err(e) => {
                proof {
                    // the method already had an entry, so the path existed:
                    // the push changed nothing and the table went back in
                    // unchanged
                    assert(taken is Some);
                    assert(pre);
                    assert(*old(self) == t1);
                    assert forall|p2: Seq<u8>, m2: Method| true implies t3.route_lookup(p2, m2)
                        == orig.route_lookup(p2, m2) by {
                        assert(t3.tree.lookup_node(t3.tree.fold_seq(p2)) == orig.tree.lookup_node(
                            orig.tree.fold_seq(p2),
                        ));
                        lemma_data_patch::<H, C>(orig, t3, idx, p2, m2);
                    }
                }
                Err(e)
            },
        }
    }

    /// Resolves a request: matches the stream against the path trie up to a
    /// space, then looks the method up in the matched path's table. A path
    /// failure is `NoMatch`; a matched path without the method is
    /// `MethodNotAllowed`. `length` receives the number of bytes the path
    /// stage examined, the separator included.
    pub fn find<'a>(&'a self, stream: &mut Stream, method: &Method, length: &mut usize) -> (r:
        Result<Pulled<&'a Data<H, C>>, Error>)
        requires
            self.wf(),
            old(stream).count + old(stream).buffer@.len() <= usize::MAX,
        ensures
            final(stream).closed == old(stream).closed,
            match self.tree.scan_from(0, old(stream).buffer@) {
                ScanResult::Sep { node, used } => {
                    &&& final(stream).buffer@ == old(stream).buffer@.skip(used + 1 as int)
                    &&& final(stream).count == old(stream).count + used + 1
                    &&& *final(length) == used + 1
                    &&& (match self.tree.nodes@[node].terminal {
                        Some(t) => (match self.tree.nodes@[t as int].data {
                            Some(mr) => (match MethodRoute::find_method_spec(
                                mr.handlers@,
                                *method,
                            ) {
                                Some(d) => r matches Ok(Pulled::Ready(rd)) && *rd == d,
                                None => r matches Err(e) && e == Error::MethodNotAllowed,
                            }),
                            None => r matches Err(e) && e == Error::MethodNotAllowed,
                        }),
                        None => r matches Err(e) && e == Error::NoMatch,
                    })
                },
                ScanResult::End { node, used } => {
                    &&& final(stream).buffer@ == old(stream).buffer@.skip(used as int)
                    &&& final(stream).count == old(stream).count + used
                    &&& *final(length) == used
                    &&& (old(stream).closed ==> (r matches Err(e) && e == Error::NoMatch))
                    &&& (!old(stream).closed ==> (r matches Ok(p) && p is NeedInput))
                },
                ScanResult::Miss { used } => {
                    &&& final(stream).buffer@ == old(stream).buffer@.skip(used as int)
                    &&& final(stream).count == old(stream).count + used
                    &&& *final(length) == used + 1
                    &&& (r matches Err(e) && e == Error::NoMatch)
                },
            },
    {
        let node = (match self.tree.find_from_stream(stream, length) {
            Ok(Pulled::Ready(t)) => t,
            Ok(Pulled::NeedInput) => {
                return Ok(Pulled::NeedInput);
            },
            Err(e) => {
                return Err(e);
            },
        });
        match self.tree.node_ref(node).data_ref() {
            Some(mr) => match mr.find(method) {
                Ok(d) => Ok(Pulled::Ready(d)),
                Err(e) => Err(e),
            },
            None => Err(Error::MethodNotAllowed),
        }
    }
}

/// After a registration, every path whose terminal node differs from the
/// registered one resolves exactly as before.
proof fn lemma_register_preserves_distinct<H, C>(
    orig: Route<H, C>,
    t1: Route<H, C>,
    t3: Route<H, C>,
    idx: usize,
    fpath: Seq<u8>,
)
    requires
        orig.wf(),
        t1.wf(),
        t3.wf(),
        TrieTree::extends(orig.tree, t1.tree),
        t1.tree.lookup_node(fpath) == Some(idx as int),
        forall|k: Seq<u8>| #[trigger] t3.tree.lookup_node(k) == t1.tree.lookup_node(k),
        forall|k: Seq<u8>| #[trigger] t3.tree.fold_seq(k) == orig.tree.fold_seq(k),
        forall|k: Seq<u8>| #[trigger] t1.tree.fold_seq(k) == orig.tree.fold_seq(k),
        forall|k: Seq<u8>|
            orig.tree.lookup_node(k) is Some ==> #[trigger] t1.tree.lookup_node(k)
                == orig.tree.lookup_node(k),
        idx < t1.tree.nodes@.len(),
        (orig.tree.lookup_node(fpath) is Some ==> orig.tree.lookup_node(fpath) == Some(
            idx as int,
        )),
        (orig.tree.lookup_node(fpath) is None ==> idx >= orig.tree.nodes@.len()),
        forall|j: int|
            0 <= j < orig.tree.nodes@.len() && j != idx ==> #[trigger] t3.tree.nodes@[j].data
                == orig.tree.nodes@[j].data,
    ensures
        forall|p2: Seq<u8>, m2: Method|
            {
                let t2n = orig.tree.lookup_node(orig.tree.fold_seq(p2));
                t2n is Some && t2n != orig.tree.lookup_node(fpath)
                    ==> #[trigger] t3.route_lookup(p2, m2) == #[trigger] orig.route_lookup(p2, m2)
            },
{
    assert forall|p2: Seq<u8>, m2: Method|
        (orig.tree.lookup_node(orig.tree.fold_seq(p2)) is Some && orig.tree.lookup_node(
            orig.tree.fold_seq(p2),
        ) != orig.tree.lookup_node(fpath)) implies #[trigger] t3.route_lookup(p2, m2)
        == #[trigger] orig.route_lookup(p2, m2) by {
        let fp2 = orig.tree.fold_seq(p2);
        let n2 = orig.tree.lookup_node(fp2).unwrap();
        assert(t1.tree.lookup_node(fp2) == Some(n2));
        assert(t3.tree.lookup_node(t3.tree.fold_seq(p2)) == Some(n2));
        // the old terminal node lies in the original arena
        orig.tree.lemma_lookup_node_in_range(fp2);
        assert(n2 != idx as int);
        assert(t3.tree.nodes@[n2].data == orig.tree.nodes@[n2].data);
    }
}

/// Two routers whose tries agree on every walk and on every payload but one
/// node's resolve alike away from that node.
proof fn lemma_data_patch<H, C>(a: Route<H, C>, b: Route<H, C>, idx: usize, p2: Seq<u8>, m2: Method)
    requires
        forall|k: Seq<u8>| #[trigger] b.tree.lookup_node(k) == a.tree.lookup_node(k),
        forall|k: Seq<u8>| #[trigger] b.tree.fold_seq(k) == a.tree.fold_seq(k),
        forall|j: int|
            0 <= j < a.tree.nodes@.len() && j != idx ==> #[trigger] b.tree.nodes@[j].data
                == a.tree.nodes@[j].data,
        a.wf(),
        idx < a.tree.nodes@.len(),
        b.tree.nodes@[idx as int].data == a.tree.nodes@[idx as int].data,
    ensures
        b.route_lookup(p2, m2) == a.route_lookup(p2, m2),
{
    let fp2 = a.tree.fold_seq(p2);
    match a.tree.lookup_node(fp2) {
        None => {},
        Some(n2) => {
            a.tree.lemma_lookup_node_in_range(fp2);
            if n2 == idx as int {
            } else {
                assert(b.tree.nodes@[n2].data == a.tree.nodes@[n2].data);
            }
        },
    }
}

} // verus!
