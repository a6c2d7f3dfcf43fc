use vstd::prelude::*;

verus! {

/// One `link_map` node, pinned at an arena slot so its identity never moves,
/// as the debugger protocol demands.
pub struct LinkMapNode {
    /// Base address of the object this node describes.
    pub l_addr: usize,
    /// Path of the object.
    pub l_name: String,
    /// Arena slot of the previous chain member.
    pub l_prev: Option<usize>,
    /// Arena slot of the next chain member.
    pub l_next: Option<usize>,
    /// Whether the node is currently spliced into the chain.
    pub live: bool,
}

/// The debugger-visible bookkeeping: an `r_debug`-like record over an arena
/// of `link_map` nodes, with the intended chain order carried as a ghost
/// sequence of slots.
///
/// The state code is `0` when consistent, `1` during an addition and `2`
/// during a deletion; every operation returns it to `0`.
pub struct DebugState {
    /// All nodes ever allocated; slots stay stable.
    pub nodes: Vec<LinkMapNode>,
    /// First chain member.
    pub head: Option<usize>,
    /// Last chain member.
    pub tail: Option<usize>,
    /// The `r_debug.state` value the debugger breakpoints on.
    pub r_state: i32,
    /// The chain order, as arena slots.
    pub chain: Ghost<Seq<int>>,
}

impl DebugState {
    /// The chain is a valid doubly-linked list: members are distinct live
    /// slots, `prev` and `next` follow the chain order in both directions,
    /// and `head` and `tail` name its ends. A forward walk from `head` and a
    /// backward walk from `tail` therefore visit exactly the same nodes, in
    /// opposite orders.
    pub open spec fn wf(self) -> bool {
        &&& forall|p: int, q: int|
            0 <= p < q < self.chain@.len() ==> (#[trigger] self.chain@[p]) != (
            #[trigger] self.chain@[q])
        &&& forall|p: int|
            0 <= p < self.chain@.len() ==> 0 <= (#[trigger] self.chain@[p]) < self.nodes@.len()
        &&& forall|n: int|
            0 <= n < self.nodes@.len() ==> ((#[trigger] self.nodes@[n].live)
                <==> self.chain@.contains(n))
        &&& forall|p: int|
            0 <= p < self.chain@.len() ==> (#[trigger] self.nodes@[self.chain@[p]].l_prev) == (
            if p == 0 {
                None::<usize>
            } else {
                Some(self.chain@[p - 1] as usize)
            })
        &&& forall|p: int|
            0 <= p < self.chain@.len() ==> (#[trigger] self.nodes@[self.chain@[p]].l_next) == (
            if p == self.chain@.len() - 1 {
                None::<usize>
            } else {
                Some(self.chain@[p + 1] as usize)
            })
        &&& self.head == (if self.chain@.len() == 0 {
            None::<usize>
        } else {
            Some(self.chain@[0] as usize)
        })
        &&& self.tail == (if self.chain@.len() == 0 {
            None::<usize>
        } else {
            Some(self.chain@[self.chain@.len() - 1] as usize)
        })
    }

    /// An empty, consistent debug state.
    pub fn new() -> (r: DebugState)
        ensures
            r.wf(),
            r.chain@.len() == 0,
            r.r_state == 0,
    {
        DebugState { nodes: Vec::new(), head: None, tail: None, r_state: 0, chain: Ghost(Seq::empty()) }
    }

    /// Splices a fresh node onto the tail of the chain, stepping the state
    /// through the mid-addition value back to consistency. Returns the new
    /// node's slot.
    pub fn add_link_map(&mut self, l_addr: usize, l_name: String) -> (r: usize)
        requires
            old(self).wf(),
            old(self).nodes@.len() < usize::MAX,
        ensures
            final(self).wf(),
            final(self).r_state == 0,
            final(self).chain@ == old(self).chain@.push(r as int),
            r == old(self).nodes@.len(),
            final(self).nodes@[r as int].l_addr == l_addr,
    {
        let ghost orig = *old(self);
        self.r_state = 1;
        let id = self.nodes.len();
        let prev = self.tail;
        self.nodes.push(LinkMapNode { l_addr, l_name, l_prev: prev, l_next: None, live: true });
        match prev {
            Some(t) => {
                let e = &mut self.nodes[t];
                e.l_next = Some(id);
            },
            None => {
                self.head = Some(id);
            },
        }
        self.tail = Some(id);
        proof {
            self.chain@ = orig.chain@.push(id as int);
        }
        self.r_state = 0;
        proof {
            let c = self.chain@;
            let oc = orig.chain@;
            assert(c[c.len() - 1] == id as int);
            assert forall|n: int|
                0 <= n < self.nodes@.len() implies ((#[trigger] self.nodes@[n].live)
                <==> c.contains(n)) by {
                if n == id {
                } else {
                    if oc.contains(n) {
                        let w = choose|w: int| 0 <= w < oc.len() && oc[w] == n;
                        assert(c[w] == n);
                    } else if c.contains(n) {
                        let w = choose|w: int| 0 <= w < c.len() && c[w] == n;
                        assert(w < c.len() - 1);
                        assert(oc[w] == n);
                    }
                }
            }
            assert forall|p: int|
                0 <= p < c.len() implies (#[trigger] self.nodes@[c[p]].l_prev) == (if p == 0 {
                None::<usize>
            } else {
                Some(c[p - 1] as usize)
            }) by {
                if p < c.len() - 1 {
                    assert(c[p] == oc[p]);
                    assert(c[p] != id as int);
                    if oc.len() > 0 && p == oc.len() - 1 {
                    }
                }
            }
            assert forall|p: int|
                0 <= p < c.len() implies (#[trigger] self.nodes@[c[p]].l_next) == (if p == c.len()
                - 1 {
                None::<usize>
            } else {
                Some(c[p + 1] as usize)
            }) by {
                if p < c.len() - 1 {
                    assert(c[p] == oc[p]);
                    if p == oc.len() - 1 {
                        assert(oc.contains(c[p]));
                    } else {
                        assert(self.nodes@[c[p]].l_next == orig.nodes@[oc[p]].l_next);
                    }
                }
            }
        }
        id
    }

    /// Unlinks a live node, stepping the state through the mid-deletion
    /// value back to consistency. The node's neighbors are rejoined; the
    /// slot stays allocated but leaves the chain.
    pub fn remove_link_map(&mut self, id: usize)
        requires
            old(self).wf(),
            id < old(self).nodes@.len(),
            old(self).nodes@[id as int].live,
        ensures
            final(self).wf(),
            final(self).r_state == 0,
            exists|p: int|
                0 <= p < old(self).chain@.len() && old(self).chain@[p] == id as int && final(self).chain@ == old(self).chain@.remove(p),
    {
        let ghost orig = *old(self);
        let ghost pos = choose|p: int| 0 <= p < orig.chain@.len() && orig.chain@[p] == id as int;
        proof {
            assert(orig.chain@.contains(id as int));
            assert(0 <= pos < orig.chain@.len() && orig.chain@[pos] == id as int);
            assert(orig.nodes@[orig.chain@[pos]].l_prev == (if pos == 0 {
                None::<usize>
            } else {
                Some(orig.chain@[pos - 1] as usize)
            }));
            assert(orig.nodes@[orig.chain@[pos]].l_next == (if pos == orig.chain@.len() - 1 {
                None::<usize>
            } else {
                Some(orig.chain@[pos + 1] as usize)
            }));
        }
        self.r_state = 2;
        let nlen = self.nodes.len();
        let prev = self.nodes[id].l_prev;
        let next = self.nodes[id].l_next;
        match prev {
            Some(pslot) => {
                proof {
                    assert(self.nodes@ == orig.nodes@);
                    assert(orig.nodes@[id as int].l_prev == Some(pslot));
                    assert(pos > 0);
                    assert(Some(pslot) == Some(orig.chain@[pos - 1] as usize));
                    assert(0 <= orig.chain@[pos - 1] < nlen);
                    assert(orig.chain@[pos - 1] == pslot as int);
                }
                let e = &mut self.nodes[pslot];
                e.l_next = next;
            },
            None => {
                self.head = next;
            },
        }
        match next {
            Some(nslot) => {
                proof {
                    assert(orig.nodes@[id as int].l_next == Some(nslot));
                    assert(pos < orig.chain@.len() - 1);
                    assert(Some(nslot) == Some(orig.chain@[pos + 1] as usize));
                    assert(0 <= orig.chain@[pos + 1] < nlen);
                    assert(orig.chain@[pos + 1] == nslot as int);
                }
                let e = &mut self.nodes[nslot];
                e.l_prev = prev;
            },
            None => {
                self.tail = prev;
            },
        }
        let e = &mut self.nodes[id];
        e.live = false;
        proof {
            self.chain@ = orig.chain@.remove(pos);
        }
        self.r_state = 0;
        proof {
            let c = self.chain@;
            let oc = orig.chain@;
            // map each new position back to its old one
            assert forall|p: int| 0 <= p < c.len() implies (#[trigger] c[p]) == (if p < pos {
                oc[p]
            } else {
                oc[p + 1]
            }) by {}
            assert forall|n: int|
                0 <= n < self.nodes@.len() implies ((#[trigger] self.nodes@[n].live)
                <==> c.contains(n)) by {
                if n == id {
                    if c.contains(n) {
                        let w = choose|w: int| 0 <= w < c.len() && c[w] == n;
                        if w < pos {
                            assert(oc[w] == n && oc[pos] == n);
                        } else {
                            assert(oc[w + 1] == n && oc[pos] == n);
                        }
                    }
                } else {
                    assert(self.nodes@[n].live == orig.nodes@[n].live);
                    if orig.nodes@[n].live {
                        let w = choose|w: int| 0 <= w < oc.len() && oc[w] == n;
                        if w < pos {
                            assert(c[w] == n);
                        } else {
                            assert(w != pos);
                            assert(c[w - 1] == n);
                        }
                    } else {
                        if c.contains(n) {
                            let w = choose|w: int| 0 <= w < c.len() && c[w] == n;
                            if w < pos {
                                assert(oc[w] == n);
                            } else {
                                assert(oc[w + 1] == n);
                            }
                        }
                    }
                }
            }
            assert forall|p: int|
                0 <= p < c.len() implies (#[trigger] self.nodes@[c[p]].l_prev) == (if p == 0 {
                None::<usize>
            } else {
                Some(c[p - 1] as usize)
            }) by {
                assert(c[p] != id as int);
                if p < pos {
                    // untouched prefix, up to the rejoined left neighbor
                    if p == pos - 1 {
                        assert(self.nodes@[c[p]].l_prev == orig.nodes@[oc[p]].l_prev);
                    } else {
                        assert(self.nodes@[c[p]].l_prev == orig.nodes@[oc[p]].l_prev);
                    }
                } else {
                    if p == pos {
                        // the right neighbor now points at the left one
                        assert(c[p] == oc[pos + 1]);
                        if pos == 0 {
                            assert(orig.nodes@[oc[pos]].l_prev == None::<usize>);
                            assert(self.nodes@[c[p]].l_prev == None::<usize>);
                        } else {
                            assert(self.nodes@[c[p]].l_prev == Some(oc[pos - 1] as usize));
                            assert(c[p - 1] == oc[pos - 1]);
                        }
                    } else {
                        assert(c[p] == oc[p + 1]);
                        assert(self.nodes@[c[p]].l_prev == orig.nodes@[oc[p + 1]].l_prev);
                        assert(c[p - 1] == oc[p]);
                    }
                }
            }
            assert forall|p: int|
                0 <= p < c.len() implies (#[trigger] self.nodes@[c[p]].l_next) == (if p == c.len()
                - 1 {
                None::<usize>
            } else {
                Some(c[p + 1] as usize)
            }) by {
                assert(c[p] != id as int);
                if p < pos - 1 {
                    assert(c[p] == oc[p]);
                    assert(self.nodes@[c[p]].l_next == orig.nodes@[oc[p]].l_next);
                } else if p == pos - 1 {
                    // the left neighbor now points at the right one
                    assert(c[p] == oc[p]);
                    if pos == oc.len() - 1 {
                        assert(self.nodes@[c[p]].l_next == None::<usize>);
                    } else {
                        assert(self.nodes@[c[p]].l_next == Some(oc[pos + 1] as usize));
                        assert(c[p + 1] == oc[pos + 1]);
                    }
                } else {
                    assert(c[p] == oc[p + 1]);
                    assert(self.nodes@[c[p]].l_next == orig.nodes@[oc[p + 1]].l_next);
                    if p < c.len() - 1 {
                        assert(c[p + 1] == oc[p + 2]);
                    }
                }
            }
        }
    }
}

} // verus!
