//! The [`Trie`] data structure, a search tree keyed by characters.
use vstd::prelude::*;

verus! {

/// One character position of some stored entry.
///
/// `value` is the whole string spelled by the path from the root down to this node, and
/// `children` holds at most one node per next character.
#[derive(Debug)]
pub struct Node {
    key: char,
    value: String,
    /// The children, with unique keys. A `Vec` rather than a `HashMap<char, Node>`: vstd's
    /// contracts for `HashMap` hold only for key types that it knows to hash consistently,
    /// which `char` is not among, and it specifies no `get_mut`.
    children: Vec<Node>,
}

/// `a` is a prefix of `b`.
pub open spec fn is_prefix(a: Seq<char>, b: Seq<char>) -> bool {
    a.len() <= b.len() && b.subrange(0, a.len() as int) == a
}

impl Node {
    /// Some child has key `c`.
    pub closed spec fn has_child(self, c: char) -> bool {
        exists|i: int| 0 <= i < self.children@.len() && self.children@[i].key == c
    }

    /// The child with key `c` (meaningful when `has_child(c)`).
    pub closed spec fn child(self, c: char) -> Node {
        self.children@[choose|i: int| 0 <= i < self.children@.len() && self.children@[i].key == c]
    }

    /// The node reached by following the characters of `p` downwards, if that path exists.
    pub closed spec fn node_at(self, p: Seq<char>) -> Option<Node>
        decreases p.len(),
    {
        if p.len() == 0 {
            Some(self)
        } else if self.has_child(p[0]) {
            self.child(p[0]).node_at(p.drop_first())
        } else {
            None
        }
    }

    /// The path `p` exists below this node.
    pub closed spec fn has(self, p: Seq<char>) -> bool {
        self.node_at(p) is Some
    }

    /// This node has no children.
    pub closed spec fn is_leaf(self) -> bool {
        self.children@.len() == 0
    }

    /// The characters of this node's value.
    pub closed spec fn spec_value(self) -> Seq<char> {
        self.value@
    }

    /// Keys of the children are unique and each child's value extends this node's value by its key.
    pub closed spec fn local_wf(self) -> bool {
        &&& forall|i: int, j: int|
            0 <= i < j < self.children@.len() ==> self.children@[i].key != self.children@[j].key
        &&& forall|i: int|
            0 <= i < self.children@.len() ==> #[trigger] self.children@[i].value@
                == self.value@.push(self.children@[i].key)
    }

    /// Every node of the subtree is locally well formed.
    pub closed spec fn wf(self) -> bool {
        forall|p: Seq<char>| #[trigger] self.node_at(p) is Some ==> self.node_at(p)->0.local_wf()
    }

    proof fn lemma_child_index(self, i: int)
        requires
            self.local_wf(),
            0 <= i < self.children@.len(),
        ensures
            self.has_child(self.children@[i].key),
            self.child(self.children@[i].key) == self.children@[i],
    {
    }

    proof fn lemma_node_at_cons(self, c: char, q: Seq<char>)
        ensures
            self.node_at(seq![c] + q) == (if self.has_child(c) {
                self.child(c).node_at(q)
            } else {
                None
            }),
    {
        let p = seq![c] + q;
        assert(p[0] == c);
        assert(p.drop_first() =~= q);
    }

    proof fn lemma_wf_child(self, i: int)
        requires
            self.wf(),
            0 <= i < self.children@.len(),
        ensures
            self.children@[i].wf(),
    {
        assert(self.node_at(Seq::empty()) is Some);
        self.lemma_child_index(i);
        let ch = self.children@[i];
        assert forall|q: Seq<char>| #[trigger] ch.node_at(q) is Some implies ch.node_at(
            q,
        )->0.local_wf() by {
            self.lemma_node_at_cons(ch.key, q);
            assert(self.node_at(seq![ch.key] + q) is Some);
        }
    }

    proof fn lemma_wf_from_children(self)
        requires
            self.local_wf(),
            forall|i: int| 0 <= i < self.children@.len() ==> (#[trigger] self.children@[i]).wf(),
        ensures
            self.wf(),
    {
        assert forall|p: Seq<char>| #[trigger] self.node_at(p) is Some implies self.node_at(
            p,
        )->0.local_wf() by {
            if p.len() > 0 {
                let c = p[0];
                let i = choose|i: int| 0 <= i < self.children@.len() && self.children@[i].key == c;
                self.lemma_child_index(i);
                assert(self.children@[i].node_at(p.drop_first()) is Some);
            }
        }
    }


    proof fn lemma_leaf_paths(self, q: Seq<char>)
        requires
            self.is_leaf(),
        ensures
            self.has(q) <==> q.len() == 0,
    {
    }

    /// Inserts the path of `word` under this node, keeping the part of it that already exists.
    fn insert(&mut self, word: &str)
        requires
            old(self).wf(),
        ensures
            final(self).wf(),
            final(self).key == old(self).key,
            final(self).value@ == old(self).value@,
            forall|p: Seq<char>| #[trigger]
                final(self).has(p) <==> old(self).has(p) || is_prefix(p, word@),
        decreases word@.len(),
    {
        let len = word.unicode_len();
        if len == 0 {
            proof {
                assert forall|p: Seq<char>| #[trigger] self.has(p) <==> old(self).has(p) || is_prefix(
                    p,
                    word@,
                ) by {
                    if is_prefix(p, word@) {
                        assert(p =~= Seq::<char>::empty());
                    }
                }
            }
            return ;
        }
        let c = word.get_char(0);
        let rest = word.substring_char(1, len);
        proof {
            assert(word@ =~= seq![c] + rest@);
            assert(old(self).node_at(Seq::empty()) is Some);
        }
        let pos = self.child_position(c);
        let ghost i_new: int;
        let ghost before: Node;
        match pos {
            Some(i) => {
                proof {
                    self.lemma_wf_child(i as int);
                    i_new = i as int;
                    before = self.children@[i as int];
                }
                self.children[i].insert(rest);
            },
            None => {
                let head = word.substring_char(0, 1);
                let value = self.value.clone().concat(head);
                let mut child = Node { key: c, value, children: Vec::new() };
                proof {
                    assert(head@ =~= seq![c]);
                    assert(child.value@ =~= self.value@.push(c));
                    assert forall|q: Seq<char>| #[trigger]
                        child.node_at(q) is Some implies child.node_at(q)->0.local_wf() by {
                        child.lemma_leaf_paths(q);
                        assert(q =~= Seq::<char>::empty());
                    }
                    before = child;
                }
                child.insert(rest);
                proof {
                    i_new = self.children@.len() as int;
                }
                self.children.push(child);
            },
        }
        proof {
            let o = *old(self);
            assert(self.local_wf());
            assert forall|i: int| 0 <= i < self.children@.len() implies (
            #[trigger] self.children@[i]).wf() by {
                if i != i_new {
                    o.lemma_wf_child(i);
                }
            }
            self.lemma_wf_from_children();
            self.lemma_child_index(i_new);
            assert forall|p: Seq<char>| #[trigger]
                self.has(p) <==> o.has(p) || is_prefix(p, word@) by {
                if p.len() > 0 {
                    let d = p[0];
                    let q = p.drop_first();
                    assert(p =~= seq![d] + q);
                    self.lemma_node_at_cons(d, q);
                    o.lemma_node_at_cons(d, q);
                    if d == c {
                        assert(self.children@[i_new].has(q) <==> before.has(q) || is_prefix(
                            q,
                            rest@,
                        ));
                        if o.has_child(c) {
                            assert(o.child(c) == before);
                        } else {
                            before.lemma_leaf_paths(q);
                            if q.len() == 0 {
                                assert(rest@.subrange(0, 0) =~= q);
                            }
                        }
                        assert(is_prefix(p, word@) <==> is_prefix(q, rest@)) by {
                            if is_prefix(q, rest@) {
                                assert(word@.subrange(0, p.len() as int) =~= p);
                            }
                            if is_prefix(p, word@) {
                                assert(rest@.subrange(0, q.len() as int) =~= q);
                            }
                        }
                    } else {
                        assert(!is_prefix(p, word@)) by {
                            if is_prefix(p, word@) {
                                assert(word@[0] == p[0]);
                            }
                        }
                        if o.has_child(d) {
                            let j = choose|j: int|
                                0 <= j < o.children@.len() && o.children@[j].key == d;
                            o.lemma_child_index(j);
                            self.lemma_child_index(j);
                        }
                        if self.has_child(d) {
                            let j = choose|j: int|
                                0 <= j < self.children@.len() && self.children@[j].key == d;
                            self.lemma_child_index(j);
                            assert(o.children@[j].key == d);
                        }
                    }
                } else {
                    assert(o.node_at(p) is Some);
                }
            }
        }
    }


    /// Deleting `w` from this node leaves it without children: it has none already, or its
    /// only child lies on `w` and is cleared in turn.
    pub closed spec fn clears(self, w: Seq<char>) -> bool
        decreases w.len(),
    {
        ||| self.is_leaf()
        ||| (w.len() > 0 && self.has_child(w[0]) && self.children@.len() == 1 && self.child(
            w[0],
        ).clears(w.drop_first()))
    }

    /// Deleting `w` from this node removes the path `p`: `p` leaves along `w` towards a child
    /// that is cleared, or is removed below it.
    pub closed spec fn removed(self, w: Seq<char>, p: Seq<char>) -> bool
        decreases w.len(),
    {
        &&& w.len() > 0
        &&& p.len() > 0
        &&& p[0] == w[0]
        &&& self.has_child(w[0])
        &&& (self.child(w[0]).clears(w.drop_first()) || self.child(w[0]).removed(
            w.drop_first(),
            p.drop_first(),
        ))
    }

    proof fn lemma_children_agree(a: Node, b: Node, c: char, d: char)
        requires
            a.local_wf(),
            b.local_wf(),
            d != c,
            forall|x: Node|
                x.key != c ==> (a.children@.contains(x) <==> b.children@.contains(x)),
        ensures
            a.has_child(d) <==> b.has_child(d),
            a.has_child(d) ==> a.child(d) == b.child(d),
    {
        if a.has_child(d) {
            let j = choose|j: int| 0 <= j < a.children@.len() && a.children@[j].key == d;
            a.lemma_child_index(j);
            assert(a.children@.contains(a.children@[j]));
            let k = choose|k: int| 0 <= k < b.children@.len() && b.children@[k] == a.children@[j];
            b.lemma_child_index(k);
        }
        if b.has_child(d) {
            let k = choose|k: int| 0 <= k < b.children@.len() && b.children@[k].key == d;
            assert(b.children@.contains(b.children@[k]));
        }
    }

    /// Deletes the part of `word`'s path under this node that no other entry shares.
    fn delete(&mut self, word: &str)
        requires
            old(self).wf(),
        ensures
            final(self).wf(),
            final(self).key == old(self).key,
            final(self).value@ == old(self).value@,
            forall|p: Seq<char>| #[trigger]
                final(self).has(p) <==> old(self).has(p) && !old(self).removed(word@, p),
            final(self).is_leaf() <==> old(self).clears(word@),
        decreases word@.len(),
    {
        let len = word.unicode_len();
        if len == 0 {
            return ;
        }
        let c = word.get_char(0);
        let rest = word.substring_char(1, len);
        proof {
            assert(word@ =~= seq![c] + rest@);
            assert(word@.drop_first() =~= rest@);
            assert(old(self).node_at(Seq::empty()) is Some);
        }
        let pos = self.child_position(c);
        match pos {
            None => {
                return ;
            },
            Some(i) => {
                let ghost before = self.children@[i as int];
                proof {
                    self.lemma_wf_child(i as int);
                }
                if self.children[i].children.len() == 0 {
                    let _ = self.children.remove(i);
                    proof {
                        assert(before.clears(rest@));
                    }
                } else {
                    self.children[i].delete(rest);
                    if self.children[i].children.len() == 0 {
                        proof {
                            assert(before.clears(rest@));
                        }
                        let _ = self.children.remove(i);
                        proof {
                            assert(self.children@ =~= old(self).children@.remove(i as int));
                        }
                    } else {
                        proof {
                            assert(!before.clears(rest@));
                            assert(self.children@ == old(self).children@.update(
                                i as int,
                                self.children@[i as int],
                            ));
                        }
                    }
                }
                proof {
                    self.lemma_delete_step(*old(self), i as int, before, word@, c, rest@);
                }
            },
        }
    }

    proof fn lemma_delete_step(
        self,
        o: Node,
        i: int,
        before: Node,
        w: Seq<char>,
        c: char,
        rest: Seq<char>,
    )
        requires
            o.wf(),
            w == seq![c] + rest,
            w.drop_first() == rest,
            0 <= i < o.children@.len(),
            o.children@[i] == before,
            before.key == c,
            o.child(c) == before,
            self.key == o.key,
            self.value@ == o.value@,
            ({
                ||| (before.clears(rest) && self.children@ == o.children@.remove(i))
                ||| (!before.clears(rest) && i < self.children@.len() && self.children@
                    == o.children@.update(i, self.children@[i]) && self.children@[i].wf()
                    && self.children@[i].key == c && self.children@[i].value@ == before.value@
                    && !self.children@[i].is_leaf() && forall|q: Seq<char>| #[trigger]
                    self.children@[i].has(q) <==> before.has(q) && !before.removed(rest, q))
            }),
        ensures
            self.wf(),
            forall|p: Seq<char>| #[trigger] self.has(p) <==> o.has(p) && !o.removed(w, p),
            self.is_leaf() <==> o.clears(w),
    {
        assert(w[0] == c);
        assert(o.node_at(Seq::empty()) is Some);
        o.lemma_child_index(i);
        let cut = before.clears(rest);
        assert forall|x: Node| x.key != c implies (o.children@.contains(x)
            <==> self.children@.contains(x)) by {
            if o.children@.contains(x) {
                let j = choose|j: int| 0 <= j < o.children@.len() && o.children@[j] == x;
                if cut {
                    if j < i {
                        assert(self.children@[j] == x);
                    } else {
                        assert(self.children@[j - 1] == x);
                    }
                } else {
                    assert(self.children@[j] == x);
                }
            }
            if self.children@.contains(x) {
                let j = choose|j: int| 0 <= j < self.children@.len() && self.children@[j] == x;
                if cut {
                    if j < i {
                        assert(o.children@[j] == x);
                    } else {
                        assert(o.children@[j + 1] == x);
                    }
                } else {
                    assert(o.children@[j] == x);
                }
            }
        }
        assert(self.local_wf());
        assert forall|k: int| 0 <= k < self.children@.len() implies (
        #[trigger] self.children@[k]).wf() by {
            if cut {
                if k < i {
                    o.lemma_wf_child(k);
                } else {
                    o.lemma_wf_child(k + 1);
                }
            } else if k != i {
                o.lemma_wf_child(k);
            }
        }
        self.lemma_wf_from_children();
        if cut {
            assert(!self.has_child(c)) by {
                if self.has_child(c) {
                    let k = choose|k: int|
                        0 <= k < self.children@.len() && self.children@[k].key == c;
                    if k < i {
                        assert(o.children@[k].key == c);
                    } else {
                        assert(o.children@[k + 1].key == c);
                    }
                }
            }
        } else {
            self.lemma_child_index(i);
        }
        assert forall|p: Seq<char>| #[trigger] self.has(p) <==> o.has(p) && !o.removed(w, p) by {
            if p.len() > 0 {
                let d = p[0];
                let q = p.drop_first();
                assert(p =~= seq![d] + q);
                self.lemma_node_at_cons(d, q);
                o.lemma_node_at_cons(d, q);
                if d != c {
                    Node::lemma_children_agree(o, self, c, d);
                } else {
                    assert(o.has(p) <==> before.has(q));
                    assert(o.removed(w, p) <==> cut || before.removed(rest, q));
                    if !cut {
                        assert(self.has(p) <==> self.children@[i].has(q));
                    }
                }
            } else {
                assert(o.node_at(p) is Some);
                assert(self.node_at(p) is Some);
            }
        }
    }


    /// Deleting `w` below the node at `prefix` removes the path `p`.
    pub closed spec fn removed_below(self, prefix: Seq<char>, w: Seq<char>, p: Seq<char>) -> bool {
        &&& self.has(prefix)
        &&& is_prefix(prefix, p)
        &&& self.node_at(prefix)->0.removed(w, p.subrange(prefix.len() as int, p.len() as int))
    }

    proof fn lemma_replace_child(self, o: Node, i: int)
        requires
            o.wf(),
            0 <= i < o.children@.len(),
            i < self.children@.len(),
            self.children@ == o.children@.update(i, self.children@[i]),
            self.children@[i].wf(),
            self.children@[i].key == o.children@[i].key,
            self.children@[i].value@ == o.children@[i].value@,
            self.key == o.key,
            self.value@ == o.value@,
        ensures
            self.wf(),
            self.has_child(o.children@[i].key),
            self.child(o.children@[i].key) == self.children@[i],
            forall|p: Seq<char>| #[trigger]
                self.has(p) <==> if p.len() > 0 && p[0] == o.children@[i].key {
                    self.children@[i].has(p.drop_first())
                } else {
                    o.has(p)
                },
    {
        let c = o.children@[i].key;
        assert(o.node_at(Seq::empty()) is Some);
        assert forall|x: Node| x.key != c implies (o.children@.contains(x)
            <==> self.children@.contains(x)) by {
            if o.children@.contains(x) {
                let j = choose|j: int| 0 <= j < o.children@.len() && o.children@[j] == x;
                assert(self.children@[j] == x);
            }
            if self.children@.contains(x) {
                let j = choose|j: int| 0 <= j < self.children@.len() && self.children@[j] == x;
                assert(o.children@[j] == x);
            }
        }
        assert(self.local_wf());
        assert forall|k: int| 0 <= k < self.children@.len() implies (
        #[trigger] self.children@[k]).wf() by {
            if k != i {
                o.lemma_wf_child(k);
            }
        }
        self.lemma_wf_from_children();
        self.lemma_child_index(i);
        assert forall|p: Seq<char>| #[trigger]
            self.has(p) <==> if p.len() > 0 && p[0] == c {
                self.children@[i].has(p.drop_first())
            } else {
                o.has(p)
            } by {
            if p.len() > 0 {
                let d = p[0];
                let q = p.drop_first();
                assert(p =~= seq![d] + q);
                self.lemma_node_at_cons(d, q);
                o.lemma_node_at_cons(d, q);
                if d != c {
                    Node::lemma_children_agree(o, self, c, d);
                }
            } else {
                assert(o.node_at(p) is Some);
                assert(self.node_at(p) is Some);
            }
        }
    }

    /// Deletes `word` below the node at `prefix`, leaving the path of `prefix` itself intact.
    fn delete_below(&mut self, prefix: &str, word: &str)
        requires
            old(self).wf(),
        ensures
            final(self).wf(),
            final(self).key == old(self).key,
            final(self).value@ == old(self).value@,
            forall|p: Seq<char>| #[trigger]
                final(self).has(p) <==> old(self).has(p) && !old(self).removed_below(
                    prefix@,
                    word@,
                    p,
                ),
        decreases prefix@.len(),
    {
        let len = prefix.unicode_len();
        if len == 0 {
            self.delete(word);
            proof {
                assert forall|p: Seq<char>|
                    old(self).removed_below(prefix@, word@, p) <==> old(self).removed(
                        word@,
                        p,
                    ) by {
                    assert(prefix@ =~= Seq::<char>::empty());
                    assert(p.subrange(0, p.len() as int) =~= p);
                    assert(p.subrange(0, 0) =~= prefix@);
                    assert(old(self).node_at(prefix@) == Some(*old(self)));
                }
            }
            return ;
        }
        let c = prefix.get_char(0);
        let rest = prefix.substring_char(1, len);
        proof {
            assert(prefix@ =~= seq![c] + rest@);
            assert(old(self).node_at(Seq::empty()) is Some);
            old(self).lemma_node_at_cons(c, rest@);
        }
        match self.child_position(c) {
            None => {
                proof {
                    assert forall|p: Seq<char>| !old(self).removed_below(prefix@, word@, p) by {}
                }
            },
            Some(i) => {
                let ghost before = self.children@[i as int];
                proof {
                    self.lemma_wf_child(i as int);
                }
                self.children[i].delete_below(rest, word);
                proof {
                    let o = *old(self);
                    self.lemma_replace_child(o, i as int);
                    assert forall|p: Seq<char>| #[trigger]
                        self.has(p) <==> o.has(p) && !o.removed_below(prefix@, word@, p) by {
                        if p.len() > 0 && p[0] == c {
                            let q = p.drop_first();
                            assert(p =~= seq![c] + q);
                            o.lemma_node_at_cons(c, q);
                            assert(is_prefix(prefix@, p) <==> is_prefix(rest@, q)) by {
                                if is_prefix(rest@, q) {
                                    assert(p.subrange(0, prefix@.len() as int) =~= prefix@);
                                }
                                if is_prefix(prefix@, p) {
                                    assert(q.subrange(0, rest@.len() as int) =~= rest@);
                                }
                            }
                            if is_prefix(prefix@, p) {
                                assert(p.subrange(prefix@.len() as int, p.len() as int)
                                    =~= q.subrange(rest@.len() as int, q.len() as int));
                            }
                            assert(o.removed_below(prefix@, word@, p) <==> before.removed_below(
                                rest@,
                                word@,
                                q,
                            ));
                        } else if p.len() > 0 {
                            assert(!is_prefix(prefix@, p));
                        }
                    }
                }
            },
        }
    }


    /// The values of the leaves of this subtree: the entries stored under this node.
    pub closed spec fn leaf_values(self) -> Set<Seq<char>> {
        Set::new(
            |v: Seq<char>|
                exists|p: Seq<char>| #[trigger]
                    self.node_at(p) is Some && self.node_at(p)->0.is_leaf() && self.node_at(
                        p,
                    )->0.value@ == v,
        )
    }

    /// Following `a + b` from this node is following `a`, then `b` from the node reached.
    pub proof fn lemma_node_at_append(self, a: Seq<char>, b: Seq<char>)
        ensures
            self.node_at(a + b) == match self.node_at(a) {
                Some(m) => m.node_at(b),
                None => None,
            },
        decreases a.len(),
    {
        if a.len() == 0 {
            assert(a + b =~= b);
        } else {
            let c = a[0];
            let a1 = a.drop_first();
            assert(a =~= seq![c] + a1);
            assert(a + b =~= seq![c] + (a1 + b));
            self.lemma_node_at_cons(c, a1);
            self.lemma_node_at_cons(c, a1 + b);
            if self.has_child(c) {
                self.child(c).lemma_node_at_append(a1, b);
            }
        }
    }

    proof fn lemma_value_at(self, p: Seq<char>)
        requires
            self.wf(),
            self.has(p),
        ensures
            self.node_at(p)->0.value@ == self.value@ + p,
        decreases p.len(),
    {
        if p.len() == 0 {
            assert(self.value@ + p =~= self.value@);
        } else {
            let c = p[0];
            let q = p.drop_first();
            assert(p =~= seq![c] + q);
            self.lemma_node_at_cons(c, q);
            assert(self.node_at(Seq::empty()) is Some);
            let j = choose|j: int| 0 <= j < self.children@.len() && self.children@[j].key == c;
            self.lemma_child_index(j);
            self.lemma_wf_child(j);
            self.children@[j].lemma_value_at(q);
            assert(self.value@.push(c) + q =~= self.value@ + p);
        }
    }

    proof fn lemma_leaf_values_children(self, v: Seq<char>)
        requires
            self.wf(),
            !self.is_leaf(),
        ensures
            self.leaf_values().contains(v) <==> exists|k: int|
                0 <= k < self.children@.len() && (#[trigger] self.children@[k]).leaf_values().contains(
                    v,
                ),
    {
        assert(self.node_at(Seq::empty()) is Some);
        if self.leaf_values().contains(v) {
            let p = choose|p: Seq<char>| #[trigger]
                self.node_at(p) is Some && self.node_at(p)->0.is_leaf() && self.node_at(p)->0.value@
                    == v;
            assert(p.len() > 0);
            let d = p[0];
            let q = p.drop_first();
            assert(p =~= seq![d] + q);
            self.lemma_node_at_cons(d, q);
            let k = choose|k: int| 0 <= k < self.children@.len() && self.children@[k].key == d;
            self.lemma_child_index(k);
            assert(self.children@[k].node_at(q) == self.node_at(p));
            assert(self.children@[k].leaf_values().contains(v));
        }
        if exists|k: int|
            0 <= k < self.children@.len() && (#[trigger] self.children@[k]).leaf_values().contains(
                v,
            ) {
            let k = choose|k: int|
                0 <= k < self.children@.len() && (#[trigger] self.children@[k]).leaf_values().contains(
                    v,
                );
            let ch = self.children@[k];
            let q = choose|q: Seq<char>| #[trigger]
                ch.node_at(q) is Some && ch.node_at(q)->0.is_leaf() && ch.node_at(q)->0.value@ == v;
            self.lemma_child_index(k);
            self.lemma_node_at_cons(ch.key, q);
            assert(self.node_at(seq![ch.key] + q) == ch.node_at(q));
        }
    }

    proof fn lemma_leaf_values_of_leaf(self)
        requires
            self.is_leaf(),
        ensures
            self.leaf_values() == set![self.value@],
    {
        assert forall|v: Seq<char>| self.leaf_values().contains(v) implies v == self.value@ by {
            let p = choose|p: Seq<char>| #[trigger]
                self.node_at(p) is Some && self.node_at(p)->0.is_leaf() && self.node_at(p)->0.value@
                    == v;
            self.lemma_leaf_paths(p);
            assert(p =~= Seq::<char>::empty());
        }
        assert(self.node_at(Seq::empty()) is Some);
        assert(self.leaf_values() =~= set![self.value@]);
    }


    /// Number of nodes in this subtree.
    pub closed spec fn size(self) -> nat
        decreases self,
    {
        1 + Node::size_of(self.children@)
    }

    /// Number of nodes in the subtrees of `s`.
    pub closed spec fn size_of(s: Seq<Node>) -> nat
        decreases s,
    {
        if s.len() == 0 {
            0
        } else {
            Node::size_of(s.subrange(0, s.len() - 1)) + s[s.len() - 1].size()
        }
    }

    /// Number of nodes in the subtrees that `s` refers to.
    pub closed spec fn size_of_refs(s: Seq<&Node>) -> nat
        decreases s.len(),
    {
        if s.len() == 0 {
            0
        } else {
            Node::size_of_refs(s.drop_last()) + s.last().size()
        }
    }

    proof fn lemma_wf_at(self, p: Seq<char>)
        requires
            self.wf(),
            self.has(p),
        ensures
            self.node_at(p)->0.wf(),
    {
        let m = self.node_at(p)->0;
        assert forall|q: Seq<char>| #[trigger] m.node_at(q) is Some implies m.node_at(
            q,
        )->0.local_wf() by {
            self.lemma_node_at_append(p, q);
            assert(self.node_at(p + q) is Some);
        }
    }

    proof fn lemma_leaf_value_prefix(self, v: Seq<char>)
        requires
            self.wf(),
            self.leaf_values().contains(v),
        ensures
            is_prefix(self.value@, v),
    {
        let p = choose|p: Seq<char>| #[trigger]
            self.node_at(p) is Some && self.node_at(p)->0.is_leaf() && self.node_at(p)->0.value@ == v;
        self.lemma_value_at(p);
        assert(v.subrange(0, self.value@.len() as int) =~= self.value@);
    }


    proof fn lemma_prefix_closed(self, a: Seq<char>, b: Seq<char>)
        requires
            self.has(a + b),
        ensures
            self.has(a),
    {
        self.lemma_node_at_append(a, b);
    }

    proof fn lemma_leaf_iff_no_extension(self, p: Seq<char>)
        requires
            self.has(p),
        ensures
            self.node_at(p)->0.is_leaf() <==> forall|c: char| !#[trigger] self.has(p.push(c)),
    {
        let m = self.node_at(p)->0;
        assert forall|c: char| #[trigger] self.has(p.push(c)) <==> m.has_child(c) by {
            assert(p.push(c) =~= p + seq![c]);
            self.lemma_node_at_append(p, seq![c]);
            m.lemma_node_at_cons(c, Seq::empty());
            assert(seq![c] + Seq::<char>::empty() =~= seq![c]);
        }
        if !m.is_leaf() {
            assert(m.has_child(m.children@[0].key));
            assert(self.has(p.push(m.children@[0].key)));
        }
    }

    proof fn lemma_chain_clears(self, w: Seq<char>)
        requires
            self.wf(),
            forall|q: Seq<char>| #[trigger] self.has(q) <==> is_prefix(q, w),
        ensures
            self.clears(w),
        decreases w.len(),
    {
        assert(self.node_at(Seq::empty()) is Some);
        if !self.is_leaf() {
            let k = self.children@[0].key;
            self.lemma_child_index(0);
            self.lemma_node_at_cons(k, Seq::empty());
            assert(seq![k] + Seq::<char>::empty() =~= seq![k]);
            assert(self.has(seq![k]));
            assert(w.len() > 0 && w[0] == k);
            if self.children@.len() > 1 {
                let k2 = self.children@[1].key;
                self.lemma_child_index(1);
                self.lemma_node_at_cons(k2, Seq::empty());
                assert(seq![k2] + Seq::<char>::empty() =~= seq![k2]);
                assert(self.has(seq![k2]));
            }
            let ch = self.children@[0];
            self.lemma_wf_child(0);
            let w1 = w.drop_first();
            assert forall|q: Seq<char>| #[trigger] ch.has(q) <==> is_prefix(q, w1) by {
                self.lemma_node_at_cons(k, q);
                assert(self.has(seq![k] + q) <==> is_prefix(seq![k] + q, w));
                if is_prefix(q, w1) {
                    assert(w.subrange(0, q.len() + 1 as int) =~= seq![k] + q);
                }
                if is_prefix(seq![k] + q, w) {
                    let kq = seq![k] + q;
                    assert forall|i: int| 0 <= i < q.len() implies w1[i] == q[i] by {
                        assert(w.subrange(0, kq.len() as int)[i + 1] == kq[i + 1]);
                    }
                    assert(w1.subrange(0, q.len() as int) =~= q);
                }
            }
            ch.lemma_chain_clears(w1);
        }
    }

    proof fn lemma_clears_prefix(self, w: Seq<char>, q: Seq<char>)
        requires
            self.clears(w),
            self.has(q),
        ensures
            is_prefix(q, w),
        decreases w.len(),
    {
        if q.len() == 0 {
            assert(w.subrange(0, 0) =~= q);
        } else {
            let d = q[0];
            let q1 = q.drop_first();
            assert(q =~= seq![d] + q1);
            self.lemma_node_at_cons(d, q1);
            let j = choose|j: int| 0 <= j < self.children@.len() && self.children@[j].key == d;
            assert(j == 0);
            let i = choose|i: int| 0 <= i < self.children@.len() && self.children@[i].key == w[0];
            assert(i == 0);
            self.child(d).lemma_clears_prefix(w.drop_first(), q1);
            assert(w.subrange(0, q.len() as int) =~= seq![d] + w.drop_first().subrange(
                0,
                q1.len() as int,
            ));
        }
    }

    proof fn lemma_removed_prefix(self, w: Seq<char>, x: Seq<char>)
        requires
            self.removed(w, x),
            self.has(x),
        ensures
            is_prefix(x, w),
        decreases w.len(),
    {
        let c = w[0];
        let x1 = x.drop_first();
        let w1 = w.drop_first();
        assert(x =~= seq![c] + x1);
        self.lemma_node_at_cons(c, x1);
        let ch = self.child(c);
        if ch.clears(w1) {
            ch.lemma_clears_prefix(w1, x1);
        } else {
            ch.lemma_removed_prefix(w1, x1);
        }
        assert(w.subrange(0, x.len() as int) =~= seq![c] + w1.subrange(0, x1.len() as int));
    }

    proof fn lemma_removed_up(self, w: Seq<char>, x: Seq<char>, y: Seq<char>)
        requires
            self.removed(w, x),
            is_prefix(x, y),
            self.has(y),
        ensures
            self.removed(w, y),
        decreases w.len(),
    {
        let c = w[0];
        assert(y[0] == x[0]);
        let w1 = w.drop_first();
        let ch = self.child(c);
        if !ch.clears(w1) {
            let x1 = x.drop_first();
            let y1 = y.drop_first();
            assert(y =~= seq![c] + y1);
            self.lemma_node_at_cons(c, y1);
            assert(y1.subrange(0, x1.len() as int) =~= x1);
            ch.lemma_removed_up(w1, x1, y1);
        }
    }

    proof fn lemma_clears_then_removed_below(self, a: Seq<char>, s: Seq<char>, q: Seq<char>)
        requires
            self.clears(a + s),
            self.has(a + q),
            q.len() > 0,
        ensures
            self.node_at(a)->0.removed(s, q),
        decreases a.len(),
    {
        self.lemma_node_at_append(a, q);
        if a.len() == 0 {
            assert(a + s =~= s);
            assert(a + q =~= q);
            let d = q[0];
            let q1 = q.drop_first();
            assert(q =~= seq![d] + q1);
            self.lemma_node_at_cons(d, q1);
            let j = choose|j: int| 0 <= j < self.children@.len() && self.children@[j].key == d;
            assert(j == 0);
            let i = choose|i: int| 0 <= i < self.children@.len() && self.children@[i].key == s[0];
            assert(i == 0);
            assert(s.drop_first() == (a + s).drop_first());
        } else {
            let c = a[0];
            let a1 = a.drop_first();
            assert(a + s =~= seq![c] + (a1 + s));
            assert(a + q =~= seq![c] + (a1 + q));
            assert((a + s).drop_first() =~= a1 + s);
            self.lemma_node_at_cons(c, a1 + q);
            self.lemma_node_at_cons(c, a1);
            assert(a =~= seq![c] + a1);
            let j = choose|j: int| 0 <= j < self.children@.len() && self.children@[j].key == c;
            assert(j == 0);
            let i = choose|i: int|
                0 <= i < self.children@.len() && self.children@[i].key == (a + s)[0];
            assert(i == 0);
            self.child(c).lemma_clears_then_removed_below(a1, s, q);
        }
    }

    proof fn lemma_removed_through(self, a: Seq<char>, s: Seq<char>, q: Seq<char>)
        requires
            self.has(a + q),
            q.len() > 0,
        ensures
            self.removed(a + s, a + q) <==> self.node_at(a)->0.removed(s, q),
        decreases a.len(),
    {
        self.lemma_node_at_append(a, q);
        if a.len() == 0 {
            assert(a + s =~= s);
            assert(a + q =~= q);
        } else {
            let c = a[0];
            let a1 = a.drop_first();
            assert(a =~= seq![c] + a1);
            assert(a + s =~= seq![c] + (a1 + s));
            assert(a + q =~= seq![c] + (a1 + q));
            assert((a + s).drop_first() =~= a1 + s);
            assert((a + q).drop_first() =~= a1 + q);
            self.lemma_node_at_cons(c, a1 + q);
            self.lemma_node_at_cons(c, a1);
            let ch = self.child(c);
            ch.lemma_removed_through(a1, s, q);
            if ch.clears(a1 + s) {
                ch.lemma_clears_then_removed_below(a1, s, q);
            }
        }
    }


    proof fn lemma_has_push(self, p: Seq<char>, c: char)
        requires
            self.has(p),
        ensures
            self.has(p.push(c)) <==> self.node_at(p)->0.has_child(c),
    {
        assert(p.push(c) =~= p + seq![c]);
        self.lemma_node_at_append(p, seq![c]);
        self.node_at(p)->0.lemma_node_at_cons(c, Seq::empty());
        assert(seq![c] + Seq::<char>::empty() =~= seq![c]);
    }

    proof fn lemma_clears_leaf(self, w: Seq<char>)
        requires
            self.clears(w),
        ensures
            exists|k: int|
                0 <= k <= w.len() && #[trigger] self.node_at(w.subrange(0, k)) is Some
                    && self.node_at(w.subrange(0, k))->0.is_leaf(),
        decreases w.len(),
    {
        if self.is_leaf() {
            assert(w.subrange(0, 0) =~= Seq::<char>::empty());
            assert(self.node_at(w.subrange(0, 0)) == Some(self));
        } else {
            let c = w[0];
            let w1 = w.drop_first();
            let ch = self.child(c);
            ch.lemma_clears_leaf(w1);
            let k = choose|k: int|
                0 <= k <= w1.len() && #[trigger] ch.node_at(w1.subrange(0, k)) is Some
                    && ch.node_at(w1.subrange(0, k))->0.is_leaf();
            assert(w.subrange(0, k + 1) =~= seq![c] + w1.subrange(0, k));
            self.lemma_node_at_cons(c, w1.subrange(0, k));
            assert(self.node_at(w.subrange(0, k + 1)) is Some);
        }
    }

    proof fn lemma_removed_leaf(self, w: Seq<char>, p: Seq<char>)
        requires
            self.removed(w, p),
        ensures
            exists|k: int|
                1 <= k <= w.len() && #[trigger] self.node_at(w.subrange(0, k)) is Some
                    && self.node_at(w.subrange(0, k))->0.is_leaf(),
        decreases w.len(),
    {
        let c = w[0];
        let w1 = w.drop_first();
        let ch = self.child(c);
        if ch.clears(w1) {
            ch.lemma_clears_leaf(w1);
        } else {
            ch.lemma_removed_leaf(w1, p.drop_first());
        }
        let k = choose|k: int|
            0 <= k <= w1.len() && #[trigger] ch.node_at(w1.subrange(0, k)) is Some
                && ch.node_at(w1.subrange(0, k))->0.is_leaf();
        assert(w.subrange(0, k + 1) =~= seq![c] + w1.subrange(0, k));
        self.lemma_node_at_cons(c, w1.subrange(0, k));
        assert(self.node_at(w.subrange(0, k + 1)) is Some);
    }

    proof fn lemma_removed_self(self, e: Seq<char>)
        requires
            self.has(e),
            e.len() > 0,
            self.node_at(e)->0.is_leaf(),
        ensures
            self.removed(e, e),
        decreases e.len(),
    {
        let c = e[0];
        let e1 = e.drop_first();
        assert(e =~= seq![c] + e1);
        self.lemma_node_at_cons(c, e1);
        let ch = self.child(c);
        if e1.len() == 0 {
            assert(ch.node_at(e1) == Some(ch));
        } else if !ch.clears(e1) {
            ch.lemma_removed_self(e1);
        }
    }

    proof fn lemma_removed_down_single(self, w: Seq<char>, x: Seq<char>, c: char)
        requires
            self.removed(w, x.push(c)),
            x.len() > 0,
            self.has(x),
            self.node_at(x)->0.children@.len() == 1,
        ensures
            self.removed(w, x),
        decreases x.len(),
    {
        let d = w[0];
        let w1 = w.drop_first();
        let x1 = x.drop_first();
        assert(x.push(c)[0] == x[0]);
        assert(x.push(c).drop_first() =~= x1.push(c));
        assert(x =~= seq![d] + x1);
        self.lemma_node_at_cons(d, x1);
        let ch = self.child(d);
        if !ch.clears(w1) {
            if x1.len() > 0 {
                ch.lemma_removed_down_single(w1, x1, c);
            } else {
                assert(x1.push(c) =~= seq![c]);
                assert(ch.node_at(x1) == Some(ch));
                assert(ch.removed(w1, seq![c]));
                assert(seq![c].drop_first() =~= Seq::<char>::empty());
                assert(!ch.child(w1[0]).removed(w1.drop_first(), Seq::<char>::empty()));
                assert(ch.clears(w1));
            }
        }
    }

    /// Index of the child with key `c`.
    fn child_position(&self, c: char) -> (r: Option<usize>)
        requires
            self.local_wf(),
        ensures
            match r {
                Some(i) => i < self.children@.len() && self.children@[i as int].key == c
                    && self.child(c) == self.children@[i as int],
                None => !self.has_child(c),
            },
    {
        let mut i: usize = 0;
        while i < self.children.len()
            invariant
                self.local_wf(),
                i <= self.children@.len(),
                forall|j: int| 0 <= j < i ==> self.children@[j].key != c,
            decreases self.children@.len() - i,
        {
            if self.children[i].key == c {
                proof {
                    self.lemma_child_index(i as int);
                }
                return Some(i);
            }
            i = i + 1;
        }
        None
    }

    /// Returns the node reached by following the characters of `word` from this node.
    pub fn find(&self, word: &str) -> (r: Option<&Node>)
        requires
            self.wf(),
        ensures
            match r {
                Some(n) => self.node_at(word@) == Some(*n),
                None => self.node_at(word@) is None,
            },
        decreases word@.len(),
    {
        let len = word.unicode_len();
        if len == 0 {
            return Some(self);
        }
        let c = word.get_char(0);
        let rest = word.substring_char(1, len);
        proof {
            assert(word@ =~= seq![c] + rest@);
            self.lemma_node_at_cons(c, rest@);
            assert(self.node_at(Seq::empty()) is Some);
        }
        match self.child_position(c) {
            Some(i) => {
                proof {
                    self.lemma_wf_child(i as int);
                }
                self.children[i].find(rest)
            },
            None => None,
        }
    }
}


/// A prefix tree of entries.
///
/// Each entry is stored as a path of single-character nodes below a root node that stands for
/// the empty string. Entries that share a prefix share the nodes of that prefix. An entry is
/// read back as a path that ends in a node without children.
#[derive(Debug)]
pub struct Trie {
    /// The root node; its key is a placeholder and its value is empty.
    root: Node,
}

impl Trie {
    /// The root is well formed and stands for the empty string.
    pub closed spec fn wf(self) -> bool {
        self.root.wf() && self.root.value@ == Seq::<char>::empty()
    }

    /// The path `p` exists in the trie.
    pub closed spec fn has_path(self, p: Seq<char>) -> bool {
        self.root.has(p)
    }

    /// The node at the end of the path `p`.
    pub closed spec fn node_at(self, p: Seq<char>) -> Option<Node> {
        self.root.node_at(p)
    }

    /// The entries that reading the trie yields: non-empty paths that end in a node without
    /// children.
    pub closed spec fn entries(self) -> Set<Seq<char>> {
        Set::new(
            |p: Seq<char>| p.len() > 0 && self.root.has(p) && self.root.node_at(p)->0.is_leaf(),
        )
    }

    /// Deleting `w` removes the path `p`.
    pub closed spec fn removes(self, w: Seq<char>, p: Seq<char>) -> bool {
        self.root.removed(w, p)
    }

    /// Deleting `w` below the node at `prefix` removes the path `p`.
    pub closed spec fn removes_below(self, prefix: Seq<char>, w: Seq<char>, p: Seq<char>) -> bool {
        self.root.removed_below(prefix, w, p)
    }

    /// `after` holds the paths of this trie and the prefixes of `w`, and no others.
    pub open spec fn inserted(self, w: Seq<char>, after: Trie) -> bool {
        &&& after.wf()
        &&& forall|p: Seq<char>| #[trigger]
            after.has_path(p) <==> self.has_path(p) || is_prefix(p, w)
    }

    /// `after` holds the paths of this trie that deleting `w` does not remove.
    pub open spec fn deleted(self, w: Seq<char>, after: Trie) -> bool {
        &&& after.wf()
        &&& forall|p: Seq<char>| #[trigger]
            after.has_path(p) <==> self.has_path(p) && !self.removes(w, p)
    }

    /// `after` holds the paths of this trie that deleting `w` below `prefix` does not remove.
    pub open spec fn deleted_below(self, prefix: Seq<char>, w: Seq<char>, after: Trie) -> bool {
        &&& after.wf()
        &&& forall|p: Seq<char>| #[trigger]
            after.has_path(p) <==> self.has_path(p) && !self.removes_below(prefix, w, p)
    }

    /// Creates an empty trie.
    pub fn new() -> (r: Trie)
        ensures
            r.wf(),
            forall|p: Seq<char>| #[trigger] r.has_path(p) <==> p.len() == 0,
            r.entries() == Set::<Seq<char>>::empty(),
    {
        let r = Trie { root: Node { key: ' ', value: String::new(), children: Vec::new() } };
        proof {
            assert forall|p: Seq<char>| #[trigger]
                r.root.node_at(p) is Some implies r.root.node_at(p)->0.local_wf() by {
                r.root.lemma_leaf_paths(p);
                assert(p =~= Seq::<char>::empty());
            }
            assert forall|p: Seq<char>| #[trigger] r.has_path(p) <==> p.len() == 0 by {
                r.root.lemma_leaf_paths(p);
                if p.len() == 0 {
                    assert(p =~= Seq::<char>::empty());
                }
            }
            assert(r.entries() =~= Set::<Seq<char>>::empty());
        }
        r
    }

    /// Inserts `word`: the part of its path that is missing is added, the rest is kept.
    pub fn insert(&mut self, word: &str)
        requires
            old(self).wf(),
        ensures
            old(self).inserted(word@, *final(self)),
    {
        self.root.insert(word);
    }

    /// Deletes `word`: the nodes of its path that no other entry passes through are removed.
    pub fn delete(&mut self, word: &str)
        requires
            old(self).wf(),
        ensures
            old(self).deleted(word@, *final(self)),
    {
        self.root.delete(word);
    }

    /// Deletes `word` below the node at `prefix`, leaving the path of `prefix` intact. Nothing
    /// changes when `prefix` is not a path of the trie.
    pub fn delete_after_prefix(&mut self, prefix: &str, word: &str)
        requires
            old(self).wf(),
        ensures
            old(self).deleted_below(prefix@, word@, *final(self)),
    {
        self.root.delete_below(prefix, word);
    }

    /// Returns the node at the end of the path of `word`, if that path exists.
    pub fn find(&self, word: &str) -> (r: Option<&Node>)
        requires
            self.wf(),
        ensures
            match r {
                Some(n) => self.has_path(word@) && self.node_at(word@) == Some(*n) && n.wf()
                    && n.spec_value() == word@,
                None => !self.has_path(word@),
            },
            word@.len() == 0 ==> r is Some,
    {
        let r = self.root.find(word);
        proof {
            assert(word@.len() == 0 ==> word@ =~= Seq::<char>::empty());
            assert(self.root.node_at(Seq::<char>::empty()) is Some);
            if r is Some {
                self.root.lemma_wf_at(word@);
                self.root.lemma_value_at(word@);
                assert(Seq::<char>::empty() + word@ =~= word@);
            }
        }
        r
    }

    /// Reads the entries that strictly extend `prefix`; none when `prefix` is not a path.
    pub fn words_with_prefix(&self, prefix: &str) -> (r: TrieRead<'_>)
        requires
            self.wf(),
        ensures
            r.inv(),
            self.has_path(prefix@) ==> r.remaining() == self.entries().filter(
                |v: Seq<char>| is_prefix(prefix@, v) && v.len() > prefix@.len(),
            ),
            !self.has_path(prefix@) ==> r.remaining() == Set::<Seq<char>>::empty(),
    {
        match self.find(prefix) {
            Some(head) => {
                let r = TrieRead::below(head);
                proof {
                    self.lemma_entries_below(prefix@, r.remaining());
                }
                r
            },
            None => {
                let r = TrieRead { stack: Vec::new() };
                proof {
                    assert(r.remaining() =~= Set::<Seq<char>>::empty());
                }
                r
            },
        }
    }

    /// Reads all the entries of the trie.
    pub fn words(&self) -> (r: TrieRead<'_>)
        requires
            self.wf(),
        ensures
            r.inv(),
            r.remaining() == self.entries(),
    {
        let r = TrieRead::below(&self.root);
        proof {
            assert(self.root.node_at(Seq::<char>::empty()) is Some);
            self.lemma_entries_below(Seq::<char>::empty(), r.remaining());
            assert forall|v: Seq<char>| self.entries().contains(v) implies is_prefix(
                Seq::<char>::empty(),
                v,
            ) && v.len() > 0 by {
                assert(v.subrange(0, 0) =~= Seq::<char>::empty());
            }
            assert(self.entries().filter(
                |v: Seq<char>| is_prefix(Seq::<char>::empty(), v) && v.len() > 0,
            ) =~= self.entries());
        }
        r
    }


    /// An entry is a non-empty path of the trie that no longer path extends.
    pub proof fn lemma_entry_iff(self, p: Seq<char>)
        requires
            self.wf(),
        ensures
            self.entries().contains(p) <==> p.len() > 0 && self.has_path(p) && forall|c: char|
                !#[trigger] self.has_path(p.push(c)),
    {
        if self.has_path(p) {
            self.root.lemma_leaf_iff_no_extension(p);
            assert forall|c: char| #[trigger] self.has_path(p.push(c)) == self.root.has(p.push(c)) by {}
            if forall|c: char| !#[trigger] self.has_path(p.push(c)) {
                assert forall|c: char| !#[trigger] self.root.has(p.push(c)) by {
                    assert(!self.has_path(p.push(c)));
                }
            }
        }
    }

    /// An inserted entry is found right after its insertion, and is still found after any other
    /// entry is inserted.
    pub proof fn lemma_insert_then_find(t0: Trie, e: Seq<char>, t1: Trie, f: Seq<char>, t2: Trie)
        requires
            t0.wf(),
            t0.inserted(e, t1),
            t1.inserted(f, t2),
        ensures
            t1.has_path(e),
            t2.has_path(e),
    {
        assert(e.subrange(0, e.len() as int) =~= e);
        assert(t1.has_path(e));
        assert(t2.has_path(e));
    }

    /// Inserting a single entry `e` into an empty trie makes every strict prefix of `e` a path,
    /// while reading the trie yields `e` alone and no such prefix.
    pub proof fn lemma_prefix_is_path_not_entry(t0: Trie, e: Seq<char>, t1: Trie, f: Seq<char>)
        requires
            t0.wf(),
            forall|p: Seq<char>| #[trigger] t0.has_path(p) <==> p.len() == 0,
            t0.inserted(e, t1),
            is_prefix(f, e),
            f.len() < e.len(),
        ensures
            t1.has_path(f),
            !t1.entries().contains(f),
            t1.entries() == set![e],
    {
        assert forall|p: Seq<char>| t1.entries().contains(p) <==> p == e by {
            t1.lemma_entry_iff(p);
            assert(p.len() == 0 ==> is_prefix(p, e)) by {
                if p.len() == 0 {
                    assert(e.subrange(0, 0) =~= p);
                }
            }
            if p == e {
                assert(e.subrange(0, e.len() as int) =~= e);
                assert forall|c: char| !#[trigger] t1.has_path(p.push(c)) by {}
            }
            if t1.entries().contains(p) && p != e {
                let c = e[p.len() as int];
                assert(p.len() < e.len()) by {
                    if p.len() == e.len() {
                        assert(p =~= e);
                    }
                }
                assert(e.subrange(0, p.len() + 1 as int) =~= p.push(c));
                assert(t1.has_path(p.push(c)));
            }
        }
        assert(t1.entries() =~= set![e]);
        assert(f != e);
    }

    /// Inserting an entry whose first character starts no path of the trie and then deleting it
    /// removes the entry entirely: the trie is left with exactly the paths it had before.
    pub proof fn lemma_insert_delete_unshared(t0: Trie, e: Seq<char>, t1: Trie, t2: Trie)
        requires
            t0.wf(),
            e.len() > 0,
            !t0.has_path(seq![e[0]]),
            t0.inserted(e, t1),
            t1.deleted(e, t2),
        ensures
            !t2.has_path(e),
            forall|p: Seq<char>| #[trigger] t2.has_path(p) <==> t0.has_path(p),
    {
        let c = e[0];
        let rest = e.drop_first();
        assert(e =~= seq![c] + rest);
        assert(t1.has_path(seq![c])) by {
            assert(e.subrange(0, 1) =~= seq![c]);
        }
        t1.root.lemma_node_at_cons(c, Seq::empty());
        assert(seq![c] + Seq::<char>::empty() =~= seq![c]);
        let ch = t1.root.child(c);
        assert(t1.root.node_at(Seq::empty()) is Some);
        let j = choose|j: int| 0 <= j < t1.root.children@.len() && t1.root.children@[j].key == c;
        t1.root.lemma_child_index(j);
        t1.root.lemma_wf_child(j);
        assert forall|q: Seq<char>| #[trigger] ch.has(q) <==> is_prefix(q, rest) by {
            t1.root.lemma_node_at_cons(c, q);
            assert(t1.has_path(seq![c] + q) <==> t0.has_path(seq![c] + q) || is_prefix(
                seq![c] + q,
                e,
            ));
            if t0.has_path(seq![c] + q) {
                t0.root.lemma_prefix_closed(seq![c], q);
            }
            if is_prefix(q, rest) {
                assert(e.subrange(0, q.len() + 1 as int) =~= seq![c] + q);
            }
            if is_prefix(seq![c] + q, e) {
                let kq = seq![c] + q;
                assert forall|i: int| 0 <= i < q.len() implies rest[i] == q[i] by {
                    assert(e.subrange(0, kq.len() as int)[i + 1] == kq[i + 1]);
                }
                assert(rest.subrange(0, q.len() as int) =~= q);
            }
        }
        ch.lemma_chain_clears(rest);
        assert(rest == e.drop_first());
        assert forall|p: Seq<char>| #[trigger] t2.has_path(p) <==> t0.has_path(p) by {
            if p.len() > 0 {
                if p[0] == c {
                    assert(t1.removes(e, p));
                    assert(p =~= seq![c] + p.drop_first());
                    if t0.has_path(p) {
                        t0.root.lemma_prefix_closed(seq![c], p.drop_first());
                    }
                } else {
                    assert(!is_prefix(p, e));
                    assert(!t1.removes(e, p));
                }
            } else {
                assert(e.subrange(0, 0) =~= p);
                assert(!t1.removes(e, p));
            }
        }
        assert(t1.removes(e, e));
    }

    /// Deleting an entry `e` keeps every other entry `e2` readable, along with every prefix that
    /// `e2` shares with `e`.
    pub proof fn lemma_delete_keeps_others(
        t0: Trie,
        e: Seq<char>,
        e2: Seq<char>,
        p: Seq<char>,
        t1: Trie,
    )
        requires
            t0.wf(),
            t0.entries().contains(e),
            t0.entries().contains(e2),
            e2 != e,
            is_prefix(p, e),
            is_prefix(p, e2),
            t0.deleted(e, t1),
        ensures
            t1.has_path(p),
            t1.entries().contains(e2),
    {
        t0.lemma_entry_iff(e2);
        t0.lemma_entry_iff(e);
        if t0.removes(e, e2) {
            t0.root.lemma_removed_prefix(e, e2);
            assert(e2.len() < e.len()) by {
                if e2.len() == e.len() {
                    assert(e2 =~= e);
                }
            }
            let c = e[e2.len() as int];
            assert(e.subrange(0, e2.len() as int) == e2);
            assert(e =~= e2.push(c) + e.subrange(e2.len() + 1 as int, e.len() as int));
            t0.root.lemma_prefix_closed(e2.push(c), e.subrange(e2.len() + 1 as int, e.len() as int));
            assert(t0.has_path(e2.push(c)));
            assert(false);
        }
        assert(t1.has_path(e2));
        let rest = e2.subrange(p.len() as int, e2.len() as int);
        assert(e2 =~= p + rest);
        t0.root.lemma_prefix_closed(p, rest);
        if t0.removes(e, p) {
            t0.root.lemma_removed_up(e, p, e2);
        }
        assert(t1.has_path(p));
        t1.lemma_entry_iff(e2);
        assert forall|c: char| !#[trigger] t1.has_path(e2.push(c)) by {}
    }

    /// Every trie has the empty path, and its paths are closed under taking prefixes.
    pub proof fn lemma_paths_prefix_closed(self, a: Seq<char>, b: Seq<char>)
        ensures
            self.has_path(Seq::<char>::empty()),
            self.has_path(a + b) ==> self.has_path(a),
    {
        assert(self.root.node_at(Seq::<char>::empty()) is Some);
        self.root.lemma_node_at_append(a, b);
    }

    /// Following `a + b` from the root is following `a`, then `b` from the node reached.
    pub proof fn lemma_node_at_append(self, a: Seq<char>, b: Seq<char>)
        ensures
            self.node_at(a + b) == match self.node_at(a) {
                Some(m) => m.node_at(b),
                None => None,
            },
    {
        self.root.lemma_node_at_append(a, b);
    }

    /// Deleting a stored entry `e` removes it, and reading the trie then yields exactly the
    /// other entries.
    pub proof fn lemma_delete_entry(t0: Trie, e: Seq<char>, t1: Trie)
        requires
            t0.wf(),
            t0.entries().contains(e),
            t0.deleted(e, t1),
        ensures
            !t1.has_path(e),
            t1.entries() == t0.entries().remove(e),
    {
        t0.lemma_entry_iff(e);
        t0.root.lemma_removed_self(e);
        assert(!t1.has_path(e));
        assert forall|v: Seq<char>| #[trigger]
            t1.entries().contains(v) <==> t0.entries().remove(e).contains(v) by {
            t0.lemma_entry_iff(v);
            t1.lemma_entry_iff(v);
            if t0.entries().contains(v) && v != e {
                assert(Seq::<char>::empty() =~= e.subrange(0, 0));
                assert(Seq::<char>::empty() =~= v.subrange(0, 0));
                Trie::lemma_delete_keeps_others(t0, e, v, Seq::<char>::empty(), t1);
            }
            if t1.entries().contains(v) {
                assert(v != e);
                assert(t0.has_path(v) && !t0.removes(e, v));
                assert forall|c: char| !#[trigger] t0.has_path(v.push(c)) by {
                    Trie::lemma_no_leaf_after_delete(t0, e, t1, v, c);
                }
            }
        }
        assert(t1.entries() =~= t0.entries().remove(e));
    }

    proof fn lemma_no_leaf_after_delete(t0: Trie, e: Seq<char>, t1: Trie, v: Seq<char>, c: char)
        requires
            t0.wf(),
            t0.deleted(e, t1),
            v.len() > 0,
            t1.has_path(v),
            forall|d: char| !#[trigger] t1.has_path(v.push(d)),
        ensures
            !t0.has_path(v.push(c)),
    {
        if t0.has_path(v.push(c)) {
            let m = t0.root.node_at(v)->0;
            t0.root.lemma_has_push(v, c);
            assert(!t1.has_path(v.push(c)));
            assert(t0.removes(e, v.push(c)));
            t0.root.lemma_removed_prefix(e, v.push(c));
            if m.children@.len() == 1 {
                t0.root.lemma_removed_down_single(e, v, c);
            } else {
                t0.root.lemma_wf_at(v);
                assert(m.node_at(Seq::empty()) is Some);
                let j: int = if m.children@[0].key != c {
                    0
                } else {
                    1
                };
                let d = m.children@[j].key;
                assert(d != c);
                m.lemma_child_index(j);
                t0.root.lemma_has_push(v, d);
                assert(!t1.has_path(v.push(d)));
                assert(t0.removes(e, v.push(d)));
                t0.root.lemma_removed_prefix(e, v.push(d));
                assert(e.subrange(0, v.len() + 1 as int)[v.len() as int] == v.push(c)[v.len() as int]);
                assert(e.subrange(0, v.len() + 1 as int)[v.len() as int] == v.push(d)[v.len() as int]);
            }
        }
    }

    /// Deleting a word along which no stored entry lies changes nothing.
    pub proof fn lemma_delete_without_entry(t0: Trie, w: Seq<char>, t1: Trie)
        requires
            t0.wf(),
            forall|e: Seq<char>| #[trigger] t0.entries().contains(e) ==> !is_prefix(e, w),
            t0.deleted(w, t1),
        ensures
            forall|p: Seq<char>| #[trigger] t1.has_path(p) <==> t0.has_path(p),
    {
        assert forall|p: Seq<char>| #[trigger] t1.has_path(p) <==> t0.has_path(p) by {
            if t0.removes(w, p) {
                t0.root.lemma_removed_leaf(w, p);
                let k = choose|k: int|
                    1 <= k <= w.len() && #[trigger] t0.root.node_at(w.subrange(0, k)) is Some
                        && t0.root.node_at(w.subrange(0, k))->0.is_leaf();
                let e = w.subrange(0, k);
                assert(t0.entries().contains(e));
                assert(w.subrange(0, e.len() as int) =~= e);
            }
        }
    }

    /// Deleting `s` below `prefix` changes no path outside the subtree of `prefix` and keeps the
    /// path of `prefix` itself; when `prefix + s` is a stored entry with `s` non-empty, that entry
    /// is gone afterwards; when `prefix` is not a path, nothing changes.
    pub proof fn lemma_delete_after_prefix_outside(
        t0: Trie,
        prefix: Seq<char>,
        s: Seq<char>,
        t1: Trie,
    )
        requires
            t0.wf(),
            t0.deleted_below(prefix, s, t1),
        ensures
            forall|x: Seq<char>| !is_prefix(prefix, x) ==> (#[trigger] t1.has_path(x) <==> t0.has_path(x)),
            t1.has_path(prefix) <==> t0.has_path(prefix),
            t0.entries().contains(prefix + s) && s.len() > 0 ==> !t1.has_path(prefix + s),
            !t0.has_path(prefix) ==> forall|x: Seq<char>| #[trigger] t1.has_path(x) <==> t0.has_path(x),
    {
        assert(prefix.subrange(prefix.len() as int, prefix.len() as int) =~= Seq::<char>::empty());
        assert(prefix.subrange(0, prefix.len() as int) =~= prefix);
        if t0.entries().contains(prefix + s) && s.len() > 0 {
            let w = prefix + s;
            t0.root.lemma_prefix_closed(prefix, s);
            t0.root.lemma_node_at_append(prefix, s);
            let m = t0.root.node_at(prefix)->0;
            m.lemma_removed_self(s);
            assert(w.subrange(0, prefix.len() as int) =~= prefix);
            assert(w.subrange(prefix.len() as int, w.len() as int) =~= s);
            assert(t0.removes_below(prefix, s, w));
        }
    }

    /// Strictly below `prefix`, deleting `s` below `prefix` leaves the same paths as deleting the
    /// whole entry `prefix + s`. The two deletions leave the same trie whenever `prefix` is a path
    /// that deleting the whole entry keeps.
    pub proof fn lemma_delete_after_prefix_like_delete(
        t0: Trie,
        prefix: Seq<char>,
        s: Seq<char>,
        t1: Trie,
        t2: Trie,
    )
        requires
            t0.wf(),
            t0.deleted_below(prefix, s, t1),
            t0.deleted(prefix + s, t2),
        ensures
            forall|x: Seq<char>|
                is_prefix(prefix, x) && x.len() > prefix.len() ==> (#[trigger] t1.has_path(x)
                    <==> t2.has_path(x)),
            t0.has_path(prefix) && !t0.removes(prefix + s, prefix) ==> forall|x: Seq<char>|
                #[trigger] t1.has_path(x) <==> t2.has_path(x),
    {
        assert(prefix.subrange(prefix.len() as int, prefix.len() as int) =~= Seq::<char>::empty());
        assert(prefix.subrange(0, prefix.len() as int) =~= prefix);
        assert forall|x: Seq<char>|
            is_prefix(prefix, x) && x.len() > prefix.len() implies (#[trigger] t1.has_path(x)
            <==> t2.has_path(x)) by {
            let q = x.subrange(prefix.len() as int, x.len() as int);
            assert(x =~= prefix + q);
            if t0.has_path(x) {
                t0.root.lemma_prefix_closed(prefix, q);
                t0.root.lemma_removed_through(prefix, s, q);
            }
        }
        if t0.has_path(prefix) && !t0.removes(prefix + s, prefix) {
            let w = prefix + s;
            assert forall|x: Seq<char>| #[trigger] t1.has_path(x) <==> t2.has_path(x) by {
                if !(is_prefix(prefix, x) && x.len() > prefix.len()) {
                    if is_prefix(prefix, x) {
                        assert(x =~= prefix);
                    }
                    if t0.has_path(x) && t0.removes(w, x) {
                        t0.root.lemma_removed_prefix(w, x);
                        if x.len() > prefix.len() {
                            assert(x.subrange(0, prefix.len() as int) =~= w.subrange(
                                0,
                                prefix.len() as int,
                            ));
                            assert(w.subrange(0, prefix.len() as int) =~= prefix);
                        } else {
                            assert(prefix.subrange(0, x.len() as int) =~= w.subrange(
                                0,
                                x.len() as int,
                            ));
                            t0.root.lemma_removed_up(w, x, prefix);
                        }
                    }
                }
            }
        }
    }

    proof fn lemma_entries_below(self, prefix: Seq<char>, found: Set<Seq<char>>)
        requires
            self.wf(),
            self.has_path(prefix),
            found == (if self.root.node_at(prefix)->0.is_leaf() {
                Set::<Seq<char>>::empty()
            } else {
                self.root.node_at(prefix)->0.leaf_values()
            }),
        ensures
            found == self.entries().filter(
                |v: Seq<char>| is_prefix(prefix, v) && v.len() > prefix.len(),
            ),
    {
        let m = self.root.node_at(prefix)->0;
        self.root.lemma_wf_at(prefix);
        self.root.lemma_value_at(prefix);
        assert(Seq::<char>::empty() + prefix =~= prefix);
        let goal = self.entries().filter(
            |v: Seq<char>| is_prefix(prefix, v) && v.len() > prefix.len(),
        );
        assert forall|v: Seq<char>| found.contains(v) <==> goal.contains(v) by {
            if goal.contains(v) {
                let q = v.subrange(prefix.len() as int, v.len() as int);
                assert(v =~= prefix + q);
                self.root.lemma_node_at_append(prefix, q);
                self.root.lemma_value_at(v);
                assert(Seq::<char>::empty() + v =~= v);
                assert(m.node_at(q) == self.root.node_at(v));
                if m.is_leaf() {
                    m.lemma_leaf_paths(q);
                }
                assert(m.leaf_values().contains(v));
            }
            if found.contains(v) {
                let q = choose|q: Seq<char>| #[trigger]
                    m.node_at(q) is Some && m.node_at(q)->0.is_leaf() && m.node_at(q)->0.value@ == v;
                m.lemma_value_at(q);
                self.root.lemma_node_at_append(prefix, q);
                assert(v =~= prefix + q);
                if q.len() == 0 {
                    assert(m.node_at(q) == Some(m));
                }
                assert(v.subrange(0, prefix.len() as int) =~= prefix);
                assert(self.root.node_at(v) == m.node_at(q));
            }
        }
        assert(found =~= goal);
    }
}

/// Every node of `s` is well formed and none lies in the subtree of another.
spec fn stack_wf(s: Seq<&Node>) -> bool {
    &&& forall|i: int| 0 <= i < s.len() ==> (#[trigger] s[i]).wf()
    &&& forall|i: int, j: int|
        0 <= i < s.len() && 0 <= j < s.len() && i != j ==> !is_prefix(
            s[i].value@,
            s[j].value@,
        )
}

/// The entries stored in the subtrees of `s`.
spec fn stack_entries(s: Seq<&Node>) -> Set<Seq<char>> {
    Set::new(
        |v: Seq<char>|
            exists|i: int| 0 <= i < s.len() && (#[trigger] s[i]).leaf_values().contains(v),
    )
}

proof fn lemma_pop_leaf(before: Seq<&Node>, base: Seq<&Node>, head: &Node)
    requires
        before == base.push(head),
        stack_wf(before),
        head.is_leaf(),
    ensures
        stack_wf(base),
        stack_entries(before).contains(head.value@),
        stack_entries(base) == stack_entries(before).remove(head.value@),
{
    let n = base.len() as int;
    assert(before[n] == head);
    assert forall|i: int| 0 <= i < base.len() implies (#[trigger] base[i]).wf() by {
        assert(before[i] == base[i]);
    }
    assert forall|i: int, j: int|
        0 <= i < base.len() && 0 <= j < base.len() && i != j implies !is_prefix(
        base[i].value@,
        base[j].value@,
    ) by {
        assert(before[i] == base[i] && before[j] == base[j]);
    }
    head.lemma_leaf_values_of_leaf();
    assert(head.leaf_values().contains(head.value@));
    assert forall|v: Seq<char>| #[trigger]
        stack_entries(base).contains(v) <==> stack_entries(before).remove(head.value@).contains(
            v,
        ) by {
        if stack_entries(base).contains(v) {
            let i = choose|i: int| 0 <= i < base.len() && (#[trigger] base[i]).leaf_values().contains(v);
            assert(before[i] == base[i]);
            base[i].lemma_leaf_value_prefix(v);
            if v == head.value@ {
                assert(before[i] == base[i]);
                assert(is_prefix(before[i].value@, before[n].value@));
            }
        }
        if stack_entries(before).remove(head.value@).contains(v) {
            let i = choose|i: int|
                0 <= i < before.len() && (#[trigger] before[i]).leaf_values().contains(v);
            if i == n {
                assert(head.leaf_values().contains(v));
            } else {
                assert(before[i] == base[i]);
            }
        }
    }
    assert(stack_entries(base) =~= stack_entries(before).remove(head.value@));
}

proof fn lemma_push_children(
    before: Seq<&Node>,
    after: Seq<&Node>,
    base: Seq<&Node>,
    head: &Node,
)
    requires
        before == base.push(head),
        stack_wf(before),
        !head.is_leaf(),
        after.len() == base.len() + head.children@.len(),
        forall|j: int| 0 <= j < base.len() ==> after[j] == base[j],
        forall|j: int|
            0 <= j < head.children@.len() ==> *after[base.len() + j] == head.children@[j],
    ensures
        stack_wf(after),
        stack_entries(after) == stack_entries(before),
{
    let n = base.len() as int;
    assert(before[n] == head);
    assert forall|i: int| 0 <= i < n implies before[i] == base[i] by {}
    assert(head.node_at(Seq::empty()) is Some);
    // Each child's value extends the value of `head` by the child's key.
    assert forall|j: int| 0 <= j < head.children@.len() implies after[n + j].value@ == head.value@.push(
        head.children@[j].key,
    ) && (#[trigger] after[n + j]).wf() by {
        head.lemma_wf_child(j);
    }
    assert forall|i: int| 0 <= i < after.len() implies (#[trigger] after[i]).wf() by {
        if i >= n {
            assert(after[n + (i - n)] == after[i]);
        }
    }
    assert forall|i: int, j: int|
        0 <= i < after.len() && 0 <= j < after.len() && i != j implies !is_prefix(
        after[i].value@,
        after[j].value@,
    ) by {
        let hv = head.value@;
        let hl = hv.len() as int;
        if i < n && j < n {
        } else if i >= n && j >= n {
            let a = head.children@[i - n];
            let b = head.children@[j - n];
            assert(after[n + (i - n)] == after[i]);
            assert(after[n + (j - n)] == after[j]);
            if is_prefix(after[i].value@, after[j].value@) {
                assert(after[j].value@[hl] == b.key);
                assert(after[i].value@[hl] == a.key);
            }
        } else if i < n {
            assert(after[n + (j - n)] == after[j]);
            let bv = after[j].value@;
            let sv = after[i].value@;
            if is_prefix(sv, bv) {
                if sv.len() <= hl {
                    assert(hv.subrange(0, sv.len() as int) =~= bv.subrange(0, sv.len() as int));
                    assert(is_prefix(before[i].value@, before[n].value@));
                } else {
                    assert(sv =~= bv);
                    assert(sv.subrange(0, hl) =~= hv);
                    assert(is_prefix(before[n].value@, before[i].value@));
                }
            }
        } else {
            assert(after[n + (i - n)] == after[i]);
            let bv = after[i].value@;
            let sv = after[j].value@;
            if is_prefix(bv, sv) {
                assert(sv.subrange(0, hl) =~= hv);
                assert(is_prefix(before[n].value@, before[j].value@));
            }
        }
    }
    assert forall|v: Seq<char>| #[trigger]
        stack_entries(after).contains(v) <==> stack_entries(before).contains(v) by {
        head.lemma_leaf_values_children(v);
        if stack_entries(after).contains(v) {
            let i = choose|i: int| 0 <= i < after.len() && (#[trigger] after[i]).leaf_values().contains(v);
            if i >= n {
                assert(after[n + (i - n)] == after[i]);
                assert(head.children@[i - n].leaf_values().contains(v));
                assert(before[n].leaf_values().contains(v));
            } else {
                assert(before[i] == after[i]);
            }
        }
        if stack_entries(before).contains(v) {
            let i = choose|i: int|
                0 <= i < before.len() && (#[trigger] before[i]).leaf_values().contains(v);
            if i == n {
                let k = choose|k: int|
                    0 <= k < head.children@.len() && (#[trigger] head.children@[k]).leaf_values().contains(
                        v,
                    );
                assert(*after[n + k] == head.children@[k]);
                assert(after[n + k].leaf_values().contains(v));
            } else {
                assert(after[i] == before[i]);
            }
        }
    }
    assert(stack_entries(after) =~= stack_entries(before));
}

/// A depth-first reader over the entries of a [`Trie`].
///
/// Each call of [`TrieRead::next`] hands out one entry that has not been handed out yet, in no
/// particular order.
pub struct TrieRead<'a> {
    /// The nodes whose subtrees are still to be visited.
    stack: Vec<&'a Node>,
}

impl<'a> TrieRead<'a> {
    /// The stacked subtrees are well formed and none of them lies inside another.
    pub closed spec fn inv(self) -> bool {
        stack_wf(self.stack@)
    }

    /// The entries that are still to be handed out.
    pub closed spec fn remaining(self) -> Set<Seq<char>> {
        stack_entries(self.stack@)
    }

    /// A reader over the entries stored strictly below `head`.
    fn below(head: &'a Node) -> (r: TrieRead<'a>)
        requires
            head.wf(),
        ensures
            r.inv(),
            r.remaining() == (if head.is_leaf() {
                Set::<Seq<char>>::empty()
            } else {
                head.leaf_values()
            }),
    {
        let mut stack: Vec<&'a Node> = Vec::new();
        let mut k: usize = 0;
        proof {
            assert(head.node_at(Seq::empty()) is Some);
        }
        while k < head.children.len()
            invariant
                head.wf(),
                head.local_wf(),
                k <= head.children@.len(),
                stack@.len() == k,
                forall|j: int| 0 <= j < k ==> *stack@[j] == head.children@[j],
            decreases head.children@.len() - k,
        {
            stack.push(&head.children[k]);
            k = k + 1;
        }
        let r = TrieRead { stack };
        proof {
            assert forall|i: int| 0 <= i < r.stack@.len() implies (#[trigger] r.stack@[i]).wf() by {
                head.lemma_wf_child(i);
            }
            assert forall|i: int, j: int|
                0 <= i < r.stack@.len() && 0 <= j < r.stack@.len() && i != j implies !is_prefix(
                r.stack@[i].value@,
                r.stack@[j].value@,
            ) by {
                let a = head.children@[i];
                let b = head.children@[j];
                if is_prefix(a.value@, b.value@) {
                    assert(b.value@[head.value@.len() as int] == b.key);
                    assert(a.value@[head.value@.len() as int] == a.key);
                }
            }
            if head.is_leaf() {
                assert(r.remaining() =~= Set::<Seq<char>>::empty());
            } else {
                assert forall|v: Seq<char>| r.remaining().contains(v) <==> head.leaf_values().contains(
                    v,
                ) by {
                    head.lemma_leaf_values_children(v);
                    if head.leaf_values().contains(v) {
                        let k = choose|k: int|
                            0 <= k < head.children@.len() && (#[trigger] head.children@[
                                k
                            ]).leaf_values().contains(v);
                        assert(r.stack@[k].leaf_values().contains(v));
                    }
                }
                assert(r.remaining() =~= head.leaf_values());
            }
        }
        r
    }

    /// Hands out the next entry, or `None` once every entry has been handed out.
    pub fn next(&mut self) -> (r: Option<&'a String>)
        requires
            old(self).inv(),
        ensures
            final(self).inv(),
            match r {
                Some(w) => old(self).remaining().contains(w@) && final(self).remaining()
                    == old(self).remaining().remove(w@),
                None => old(self).remaining() == Set::<Seq<char>>::empty() && final(self).remaining()
                    == old(self).remaining(),
            },
    {
        loop
            invariant
                self.inv(),
                self.remaining() == old(self).remaining(),
            decreases Node::size_of_refs(self.stack@),
        {
            let ghost before = self.stack@;
            match self.stack.pop() {
                None => {
                    proof {
                        assert(self.remaining() =~= Set::<Seq<char>>::empty());
                    }
                    return None;
                },
                Some(head) => {
                    let ghost base = self.stack@;
                    proof {
                        assert(before =~= base.push(head));
                        assert((*head).wf());
                        assert(head.node_at(Seq::empty()) is Some);
                    }
                    let mut k: usize = 0;
                    while k < head.children.len()
                        invariant
                            head.wf(),
                            head.local_wf(),
                            before == base.push(head),
                            stack_wf(before),
                            stack_entries(before) == old(self).remaining(),
                            k <= head.children@.len(),
                            self.stack@.len() == base.len() + k,
                            forall|j: int| 0 <= j < base.len() ==> self.stack@[j] == base[j],
                            forall|j: int|
                                0 <= j < k ==> *self.stack@[base.len() + j] == head.children@[j],
                            Node::size_of_refs(self.stack@) == Node::size_of_refs(base)
                                + Node::size_of(head.children@.subrange(0, k as int)),
                        decreases head.children@.len() - k,
                    {
                        let ghost prev = self.stack@;
                        self.stack.push(&head.children[k]);
                        proof {
                            assert(self.stack@.drop_last() =~= prev);
                            assert(head.children@.subrange(0, k + 1).subrange(0, k as int)
                                =~= head.children@.subrange(0, k as int));
                        }
                        k = k + 1;
                    }
                    if head.children.len() == 0 {
                        proof {
                            assert(self.stack@ =~= base);
                            lemma_pop_leaf(before, base, head);
                        }
                        return Some(&head.value);
                    }
                    proof {
                        assert(head.children@.subrange(0, k as int) =~= head.children@);
                        lemma_push_children(before, self.stack@, base, head);
                    }
                },
            }
        }
    }

}

} // verus!
