//! A prefix dictionary (trie): stores a finite set of words and answers
//! which symbols, or the end-of-word marker, can legally follow a prefix.

use vstd::prelude::*;

use crate::error::WordSquareError;

verus! {

/// The legal ways to extend a prefix among the stored words: the distinct
/// literal symbols that may follow it, plus a separate marker saying that
/// the prefix is itself a complete stored word. The marker is never mixed
/// in among the symbols, and the internal root tag is never exposed here.
pub struct Continuations {
    /// The distinct symbols that can follow the queried prefix.
    pub symbols: Vec<char>,
    /// Whether the queried prefix is itself a stored word.
    pub end_of_word: bool,
}

/// A trie node. `keys` and `kids` run in parallel: `kids[k]` is the
/// subtree of all stored suffixes that begin with the symbol `keys[k]`.
struct Node {
    is_word: bool,
    keys: Vec<char>,
    kids: Vec<Node>,
}

/// Index of the first occurrence of `c` in `keys`, if any.
spec fn key_index(keys: Seq<char>, c: char) -> Option<int>
    decreases keys.len(),
{
    if keys.len() == 0 {
        None
    } else if keys[0] == c {
        Some(0int)
    } else {
        match key_index(keys.drop_first(), c) {
            Some(i) => Some(i + 1),
            None => None,
        }
    }
}

proof fn lemma_key_index_props(keys: Seq<char>, c: char)
    ensures
        match key_index(keys, c) {
            Some(k) => 0 <= k < keys.len() && keys[k] == c && (forall|j: int|
                0 <= j < k ==> keys[j] != c),
            None => forall|j: int| 0 <= j < keys.len() ==> keys[j] != c,
        },
    decreases keys.len(),
{
    if keys.len() == 0 {
    } else if keys[0] == c {
    } else {
        lemma_key_index_props(keys.drop_first(), c);
        assert forall|j: int| 1 <= j < keys.len() implies keys[j] == keys.drop_first()[j - 1] by {}
    }
}

proof fn lemma_key_index_first(keys: Seq<char>, c: char, k: int)
    requires
        0 <= k < keys.len(),
        keys[k] == c,
        forall|j: int| 0 <= j < k ==> keys[j] != c,
    ensures
        key_index(keys, c) == Some(k),
    decreases keys.len(),
{
    if k == 0 {
    } else {
        lemma_key_index_first(keys.drop_first(), c, k - 1);
    }
}

proof fn lemma_key_index_none(keys: Seq<char>, c: char)
    requires
        forall|j: int| 0 <= j < keys.len() ==> keys[j] != c,
    ensures
        key_index(keys, c) == None::<int>,
    decreases keys.len(),
{
    if keys.len() == 0 {
    } else {
        lemma_key_index_none(keys.drop_first(), c);
    }
}

impl Node {
    /// The word `w` is stored in the subtree rooted here: following its
    /// symbols in order reaches a node whose end-of-word marker is set.
    spec fn marked(self, w: Seq<char>) -> bool
        decreases w.len(),
    {
        if w.len() == 0 {
            self.is_word
        } else {
            match key_index(self.keys@, w[0]) {
                Some(k) => self.kids@[k].marked(w.drop_first()),
                None => false,
            }
        }
    }

    /// The node reached from here by following the prefix `p`, if the
    /// path exists.
    spec fn subtree(self, p: Seq<char>) -> Option<Node>
        decreases p.len(),
    {
        if p.len() == 0 {
            Some(self)
        } else {
            match key_index(self.keys@, p[0]) {
                Some(k) => self.kids@[k].subtree(p.drop_first()),
                None => None,
            }
        }
    }
}

/// The node's own bookkeeping is sound: the symbol and subtree vectors
/// run in parallel and no symbol occurs twice among its children.
spec fn local_ok(n: Node) -> bool {
    &&& n.keys@.len() == n.kids@.len()
    &&& forall|i: int, j: int| 0 <= i < j < n.keys@.len() ==> n.keys@[i] != n.keys@[j]
}

/// Every node reachable from `n` keeps its local bookkeeping, and every
/// node below `n` (reached by a non-empty path) lies on the path of at
/// least one stored word.
spec fn node_inv(n: Node) -> bool {
    forall|p: Seq<char>|
        #![trigger n.subtree(p)]
        n.subtree(p) matches Some(m) ==> {
            &&& local_ok(m)
            &&& p.len() > 0 ==> exists|u: Seq<char>| m.marked(u)
        }
}

proof fn lemma_subtree_append(n: Node, p: Seq<char>, q: Seq<char>)
    ensures
        n.subtree(p + q) == (match n.subtree(p) {
            Some(m) => m.subtree(q),
            None => None::<Node>,
        }),
    decreases p.len(),
{
    if p.len() == 0 {
        assert(p + q =~= q);
        assert(n.subtree(p) == Some(n));
    } else {
        assert((p + q)[0] == p[0]);
        assert((p + q).len() > 0);
        match key_index(n.keys@, p[0]) {
            Some(k) => {
                assert((p + q).drop_first() =~= p.drop_first() + q);
                lemma_subtree_append(n.kids@[k], p.drop_first(), q);
            },
            None => {},
        }
    }
}

proof fn lemma_marked_split(n: Node, p: Seq<char>, u: Seq<char>)
    ensures
        n.marked(p + u) <==> (n.subtree(p) matches Some(m) && m.marked(u)),
    decreases p.len(),
{
    if p.len() == 0 {
        assert(p + u =~= u);
    } else {
        assert((p + u)[0] == p[0]);
        assert((p + u).len() > 0);
        match key_index(n.keys@, p[0]) {
            Some(k) => {
                assert((p + u).drop_first() =~= p.drop_first() + u);
                lemma_marked_split(n.kids@[k], p.drop_first(), u);
            },
            None => {},
        }
    }
}

proof fn lemma_inv_subtree(n: Node, p: Seq<char>, m: Node)
    requires
        node_inv(n),
        n.subtree(p) == Some(m),
    ensures
        node_inv(m),
{
    assert forall|q: Seq<char>| #[trigger] m.subtree(q) is Some implies {
        &&& local_ok(m.subtree(q).unwrap())
        &&& q.len() > 0 ==> exists|u: Seq<char>| m.subtree(q).unwrap().marked(u)
    } by {
        lemma_subtree_append(n, p, q);
        assert(n.subtree(p + q) == m.subtree(q));
        if q.len() > 0 {
            assert((p + q).len() > 0);
        }
    }
}

/// A stored word of a well-formed subtree can be recovered from any node
/// on its path: prefixes of stored words are never dead ends.
proof fn lemma_fruitful(n: Node, p: Seq<char>, m: Node)
    requires
        node_inv(n),
        n.subtree(p) == Some(m),
        exists|u: Seq<char>| m.marked(u),
    ensures
        exists|w: Seq<char>| n.marked(w) && p.is_prefix_of(w),
{
    let u = choose|u: Seq<char>| m.marked(u);
    lemma_marked_split(n, p, u);
    assert(n.marked(p + u));
    assert(p.is_prefix_of(p + u)) by {
        assert((p + u).subrange(0, p.len() as int) =~= p);
    }
}

/// The converse: every stored word leaves a live path behind it.
proof fn lemma_prefix_reaches(n: Node, p: Seq<char>, w: Seq<char>)
    requires
        n.marked(w),
        p.is_prefix_of(w),
    ensures
        n.subtree(p) matches Some(m) && m.marked(w.skip(p.len() as int)),
{
    assert(w =~= p + w.skip(p.len() as int));
    lemma_marked_split(n, p, w.skip(p.len() as int));
}

proof fn lemma_subtree_single(n: Node, c: char)
    ensures
        n.subtree(seq![c]) == (match key_index(n.keys@, c) {
            Some(k) => Some(n.kids@[k]),
            None => None::<Node>,
        }),
{
    reveal_with_fuel(Node::subtree, 2);
    assert(seq![c].drop_first() =~= Seq::<char>::empty());
    assert(seq![c][0] == c);
}

/// A well-formed node stores some word below it exactly when it is
/// itself marked or has at least one child.
proof fn lemma_fruitful_local(m: Node)
    requires
        node_inv(m),
    ensures
        (exists|u: Seq<char>| m.marked(u)) <==> (m.keys@.len() > 0 || m.is_word),
{
    assert(m.subtree(Seq::<char>::empty()) == Some(m));
    assert(local_ok(m));
    if m.is_word {
        assert(m.marked(Seq::<char>::empty()));
    } else if m.keys@.len() > 0 {
        let c = m.keys@[0];
        lemma_key_index_first(m.keys@, c, 0);
        let single = seq![c];
        lemma_subtree_single(m, c);
        assert(m.subtree(single) == Some(m.kids@[0]));
        assert(exists|u: Seq<char>| m.kids@[0].marked(u));
        let u = choose|u: Seq<char>| m.kids@[0].marked(u);
        lemma_marked_split(m, single, u);
        assert(m.marked(single + u));
    } else {
        assert forall|u: Seq<char>| !m.marked(u) by {
            if u.len() > 0 {
                lemma_key_index_none(m.keys@, u[0]);
            }
        }
    }
}

/// A prefix-indexed dictionary: a finite set of non-empty words, stored
/// as a trie whose root stands for the empty prefix.
pub struct PrefixDictionary {
    root: Node,
}

impl PrefixDictionary {
    /// The mathematical content of the dictionary: the set of stored words.
    pub closed spec fn words(self) -> Set<Seq<char>> {
        Set::new(|w: Seq<char>| self.root.marked(w))
    }

    /// Structural well-formedness: parallel, duplicate-free child tables
    /// everywhere, no dead branches, and the root never marked (the empty
    /// word is never stored).
    pub closed spec fn wf(self) -> bool {
        &&& node_inv(self.root)
        &&& !self.root.is_word
    }

    /// An empty dictionary.
    pub fn new() -> (d: Self)
        ensures
            d.wf(),
            d.words() == Set::<Seq<char>>::empty(),
    {
        let d = PrefixDictionary {
            root: Node { is_word: false, keys: Vec::new(), kids: Vec::new() },
        };
        proof {
            assert forall|p: Seq<char>| #[trigger] d.root.subtree(p) is Some implies {
                &&& local_ok(d.root.subtree(p).unwrap())
                &&& p.len() > 0 ==> exists|u: Seq<char>| d.root.subtree(p).unwrap().marked(u)
            } by {
                if p.len() > 0 {
                    lemma_key_index_none(d.root.keys@, p[0]);
                }
            }
            assert forall|w: Seq<char>| !d.root.marked(w) by {
                if w.len() > 0 {
                    lemma_key_index_none(d.root.keys@, w[0]);
                }
            }
            assert(d.words() =~= Set::<Seq<char>>::empty());
        }
        d
    }
}

/// First index holding the symbol `c`, scanning the child table in order.
fn find_key(keys: &Vec<char>, c: char) -> (r: Option<usize>)
    ensures
        key_index(keys@, c) == (match r {
            Some(k) => Some(k as int),
            None => None::<int>,
        }),
{
    let mut j: usize = 0;
    while j < keys.len()
        invariant
            j <= keys@.len(),
            forall|t: int| 0 <= t < j ==> keys@[t] != c,
        decreases keys@.len() - j,
    {
        if keys[j] == c {
            proof {
                lemma_key_index_first(keys@, c, j as int);
            }
            return Some(j);
        }
        j += 1;
    }
    proof {
        lemma_key_index_none(keys@, c);
    }
    None
}

impl PrefixDictionary {
    /// The continuations legal after `prefix` among the stored words:
    /// `None` when no stored word has `prefix` as a prefix; otherwise the
    /// distinct symbols that can follow it, with the end-of-word marker
    /// set exactly when `prefix` is itself a stored word.
    pub fn continuations(&self, prefix: &Vec<char>) -> (r: Option<Continuations>)
        requires
            self.wf(),
        ensures
            r is Some <==> exists|w: Seq<char>|
                self.words().contains(w) && prefix@.is_prefix_of(w),
            r matches Some(cs) ==> {
                &&& forall|c: char|
                    cs.symbols@.contains(c) <==> exists|w: Seq<char>|
                        self.words().contains(w) && (prefix@ + seq![c]).is_prefix_of(w)
                &&& cs.end_of_word <==> self.words().contains(prefix@)
                &&& forall|i: int, j: int|
                    0 <= i < j < cs.symbols@.len() ==> cs.symbols@[i] != cs.symbols@[j]
            },
    {
        let mut cur: &Node = &self.root;
        let mut i: usize = 0;
        proof {
            assert(prefix@.take(0) =~= Seq::<char>::empty());
        }
        while i < prefix.len()
            invariant
                self.wf(),
                i <= prefix@.len(),
                self.root.subtree(prefix@.take(i as int)) == Some(*cur),
            decreases prefix@.len() - i,
        {
            let c = prefix[i];
            proof {
                assert(local_ok(*cur));
            }
            match find_key(&cur.keys, c) {
                Some(k) => {
                    proof {
                        lemma_key_index_props(cur.keys@, c);
                        assert(prefix@.take(i + 1) =~= prefix@.take(i as int) + seq![c]);
                        lemma_subtree_append(self.root, prefix@.take(i as int), seq![c]);
                        lemma_subtree_single(*cur, c);
                        assert(cur.subtree(seq![c]) == Some(cur.kids@[k as int]));
                    }
                    cur = &cur.kids[k];
                },
                None => {
                    proof {
                        assert(prefix@.take(i + 1) =~= prefix@.take(i as int) + seq![c]);
                        lemma_subtree_append(self.root, prefix@.take(i as int), seq![c]);
                        lemma_subtree_single(*cur, c);
                        assert(self.root.subtree(prefix@.take(i + 1)) is None);
                        assert(prefix@ =~= prefix@.take(i + 1) + prefix@.skip(i + 1));
                        lemma_subtree_append(
                            self.root,
                            prefix@.take(i + 1),
                            prefix@.skip(i + 1),
                        );
                        assert(self.root.subtree(prefix@) is None);
                        assert forall|w: Seq<char>|
                            !(self.words().contains(w) && prefix@.is_prefix_of(w)) by {
                            if self.words().contains(w) && prefix@.is_prefix_of(w) {
                                lemma_prefix_reaches(self.root, prefix@, w);
                            }
                        }
                    }
                    return None;
                },
            }
            i += 1;
        }
        proof {
            assert(prefix@.take(i as int) =~= prefix@);
        }
        let ghost m = *cur;
        proof {
            lemma_inv_subtree(self.root, prefix@, m);
            lemma_fruitful_local(m);
        }
        if cur.keys.len() == 0 && !cur.is_word {
            proof {
                assert forall|w: Seq<char>|
                    !(self.words().contains(w) && prefix@.is_prefix_of(w)) by {
                    if self.words().contains(w) && prefix@.is_prefix_of(w) {
                        lemma_prefix_reaches(self.root, prefix@, w);
                    }
                }
            }
            return None;
        }
        let mut v: Vec<char> = Vec::new();
        let mut j: usize = 0;
        while j < cur.keys.len()
            invariant
                j <= cur.keys@.len(),
                v@ == cur.keys@.take(j as int),
            decreases cur.keys@.len() - j,
        {
            v.push(cur.keys[j]);
            proof {
                assert(v@ =~= cur.keys@.take(j + 1));
            }
            j += 1;
        }
        proof {
            assert(v@ =~= m.keys@);
        }
        let cs = Continuations { symbols: v, end_of_word: cur.is_word };
        proof {
            // The dictionary is live along this prefix.
            assert(exists|u: Seq<char>| m.marked(u));
            lemma_fruitful(self.root, prefix@, m);
            // Symbol membership matches prefix extension.
            assert forall|c: char|
                cs.symbols@.contains(c) <==> exists|w: Seq<char>|
                    self.words().contains(w) && (prefix@ + seq![c]).is_prefix_of(w) by {
                if cs.symbols@.contains(c) {
                    assert(m.keys@.contains(c));
                    let t = choose|t: int| 0 <= t < m.keys@.len() && m.keys@[t] == c;
                    lemma_key_index_props(m.keys@, c);
                    assert(key_index(m.keys@, c) is Some);
                    let k = key_index(m.keys@, c).unwrap();
                    lemma_subtree_single(m, c);
                    assert(m.subtree(seq![c]) == Some(m.kids@[k]));
                    lemma_subtree_append(self.root, prefix@, seq![c]);
                    assert(self.root.subtree(prefix@ + seq![c]) == Some(m.kids@[k]));
                    assert((prefix@ + seq![c]).len() > 0);
                    assert(exists|u: Seq<char>| m.kids@[k].marked(u));
                    lemma_fruitful(self.root, prefix@ + seq![c], m.kids@[k]);
                    let w0 = choose|w: Seq<char>|
                        self.root.marked(w) && (prefix@ + seq![c]).is_prefix_of(w);
                    assert(self.words().contains(w0));
                    assert((prefix@ + seq![c]).is_prefix_of(w0));
                }
                if exists|w: Seq<char>|
                    self.words().contains(w) && (prefix@ + seq![c]).is_prefix_of(w) {
                    let w = choose|w: Seq<char>|
                        self.words().contains(w) && (prefix@ + seq![c]).is_prefix_of(w);
                    lemma_prefix_reaches(self.root, prefix@ + seq![c], w);
                    lemma_subtree_append(self.root, prefix@, seq![c]);
                    lemma_subtree_single(m, c);
                    assert(m.subtree(seq![c]) is Some);
                    assert(key_index(m.keys@, c) is Some);
                    lemma_key_index_props(m.keys@, c);
                    let k = key_index(m.keys@, c).unwrap();
                    assert(cs.symbols@[k] == c);
                    assert(cs.symbols@.contains(c));
                }
            }
            // The end-of-word marker matches membership of the prefix itself.
            lemma_marked_split(self.root, prefix@, Seq::<char>::empty());
            assert(prefix@ + Seq::<char>::empty() =~= prefix@);
            // No duplicate symbols.
            assert(local_ok(m));
        }
        Some(cs)
    }
}

/// A fresh chain of nodes storing exactly the suffix `w[j..]`.
fn make_chain(w: &Vec<char>, j: usize) -> (n: Node)
    requires
        j <= w@.len(),
    ensures
        forall|u: Seq<char>| n.marked(u) <==> u == w@.skip(j as int),
        node_inv(n),
        forall|p: Seq<char>| #[trigger] n.subtree(p) is Some ==> exists|u: Seq<char>|
            n.subtree(p).unwrap().marked(u),
    decreases w@.len() - j,
{
    if j == w.len() {
        let n = Node { is_word: true, keys: Vec::new(), kids: Vec::new() };
        proof {
            assert(w@.skip(j as int) =~= Seq::<char>::empty());
            assert forall|u: Seq<char>| n.marked(u) <==> u == w@.skip(j as int) by {
                if u.len() == 0 {
                    assert(u =~= w@.skip(j as int));
                } else {
                    lemma_key_index_none(n.keys@, u[0]);
                }
            }
            assert forall|p: Seq<char>| #[trigger] n.subtree(p) is Some implies {
                &&& local_ok(n.subtree(p).unwrap())
                &&& exists|u: Seq<char>| n.subtree(p).unwrap().marked(u)
            } by {
                if p.len() > 0 {
                    lemma_key_index_none(n.keys@, p[0]);
                } else {
                    assert(n.marked(w@.skip(j as int)));
                }
            }
        }
        n
    } else {
        let c = w[j];
        let kid = make_chain(w, j + 1);
        let ghost kd = kid;
        let mut keys: Vec<char> = Vec::new();
        keys.push(c);
        let mut kids: Vec<Node> = Vec::new();
        kids.push(kid);
        let n = Node { is_word: false, keys, kids };
        proof {
            assert(n.keys@ =~= seq![c]);
            assert(n.kids@ =~= seq![kd]);
            assert(w@.skip(j as int) =~= seq![c] + w@.skip(j + 1));
            assert(w@.skip(j as int).len() > 0);
            assert(w@.skip(j as int)[0] == c);
            assert forall|u: Seq<char>| n.marked(u) <==> u == w@.skip(j as int) by {
                if u.len() == 0 {
                } else if u[0] == c {
                    lemma_key_index_first(n.keys@, c, 0);
                    assert(n.marked(u) == kd.marked(u.drop_first()));
                    if u.drop_first() == w@.skip(j + 1) {
                        assert(u =~= w@.skip(j as int));
                    }
                    if u == w@.skip(j as int) {
                        assert(u.drop_first() =~= w@.skip(j + 1));
                    }
                } else {
                    lemma_key_index_none(n.keys@, u[0]);
                    assert(!n.marked(u));
                    assert(u != w@.skip(j as int));
                }
            }
            assert(n.marked(w@.skip(j as int)));
            assert forall|p: Seq<char>| #[trigger] n.subtree(p) is Some implies {
                &&& local_ok(n.subtree(p).unwrap())
                &&& exists|u: Seq<char>| n.subtree(p).unwrap().marked(u)
            } by {
                if p.len() == 0 {
                    assert(n.subtree(p) == Some(n));
                } else if p[0] == c {
                    lemma_key_index_first(n.keys@, c, 0);
                    assert(n.subtree(p) == kd.subtree(p.drop_first()));
                    assert(kd.subtree(p.drop_first()) is Some);
                } else {
                    lemma_key_index_none(n.keys@, p[0]);
                }
            }
        }
        n
    }
}

/// Walks or creates the path for `w[i..]` below `node` and marks its end.
fn insert_node(node: &mut Node, w: &Vec<char>, i: usize)
    requires
        node_inv(*old(node)),
        i <= w@.len(),
    ensures
        node_inv(*final(node)),
        forall|u: Seq<char>|
            final(node).marked(u) <==> (old(node).marked(u) || u == w@.skip(i as int)),
        final(node).is_word == (old(node).is_word || i == w@.len()),
    decreases w@.len() - i,
{
    proof {
        assert(old(node).subtree(Seq::<char>::empty()) == Some(*old(node)));
        assert(local_ok(*old(node)));
    }
    if i == w.len() {
        node.is_word = true;
        proof {
            assert(w@.skip(i as int) =~= Seq::<char>::empty());
            assert forall|p: Seq<char>| p.len() > 0 implies #[trigger] node.subtree(p)
                == old(node).subtree(p) by {
                assert(node.keys@ == old(node).keys@);
                assert(node.kids@ == old(node).kids@);
            }
            assert forall|u: Seq<char>|
                node.marked(u) <==> (old(node).marked(u) || u == w@.skip(i as int)) by {
                if u.len() == 0 {
                    assert(u =~= w@.skip(i as int));
                    assert(node.marked(u));
                } else {
                    assert(u != w@.skip(i as int));
                }
            }
            assert forall|p: Seq<char>| #[trigger] node.subtree(p) is Some implies {
                &&& local_ok(node.subtree(p).unwrap())
                &&& p.len() > 0 ==> exists|u: Seq<char>| node.subtree(p).unwrap().marked(u)
            } by {
                if p.len() == 0 {
                    assert(node.subtree(p) == Some(*node));
                } else {
                    assert(node.subtree(p) == old(node).subtree(p));
                    assert(old(node).subtree(p) is Some);
                }
            }
        }
    } else {
        let c = w[i];
        proof {
            assert(w@.skip(i as int) =~= seq![c] + w@.skip(i + 1));
            assert(w@.skip(i as int).len() > 0);
            assert(w@.skip(i as int)[0] == c);
        }
        match find_key(&node.keys, c) {
            Some(k) => {
                proof {
                    lemma_key_index_props(old(node).keys@, c);
                    lemma_subtree_single(*old(node), c);
                    lemma_inv_subtree(
                        *old(node),
                        seq![c],
                        old(node).kids@[k as int],
                    );
                }
                let ghost kid0 = old(node).kids@[k as int];
                let mut kid = node.kids.remove(k);
                insert_node(&mut kid, w, i + 1);
                let ghost kidf = kid;
                node.kids.insert(k, kid);
                proof {
                    assert(node.keys@ == old(node).keys@);
                    assert(node.kids@ =~= old(node).kids@.update(k as int, kidf));
                    assert(node.is_word == old(node).is_word);
                    let keys = old(node).keys@;
                    assert forall|u: Seq<char>|
                        node.marked(u) <==> (old(node).marked(u) || u == w@.skip(i as int)) by {
                        if u.len() == 0 {
                            assert(u != w@.skip(i as int));
                        } else {
                            lemma_key_index_props(keys, u[0]);
                            match key_index(keys, u[0]) {
                                None => {
                                    assert(u != w@.skip(i as int));
                                },
                                Some(k2) => {
                                    if k2 != k as int {
                                        assert(node.kids@[k2] == old(node).kids@[k2]);
                                        assert(u != w@.skip(i as int));
                                    } else {
                                        assert(keys[k2] == u[0]);
                                        assert(keys[k as int] == c);
                                        assert(u[0] == c);
                                        assert(node.marked(u) == kidf.marked(u.drop_first()));
                                        assert(old(node).marked(u) == kid0.marked(
                                            u.drop_first(),
                                        ));
                                        if u.drop_first() == w@.skip(i + 1) {
                                            assert(u =~= w@.skip(i as int));
                                        }
                                        if u == w@.skip(i as int) {
                                            assert(u.drop_first() =~= w@.skip(i + 1));
                                        }
                                    }
                                },
                            }
                        }
                    }
                    assert forall|p: Seq<char>| #[trigger] node.subtree(p) is Some implies {
                        &&& local_ok(node.subtree(p).unwrap())
                        &&& p.len() > 0 ==> exists|u: Seq<char>|
                            node.subtree(p).unwrap().marked(u)
                    } by {
                        if p.len() == 0 {
                            assert(node.subtree(p) == Some(*node));
                        } else {
                            lemma_key_index_props(keys, p[0]);
                            match key_index(keys, p[0]) {
                                None => {},
                                Some(k2) => {
                                    if k2 != k as int {
                                        assert(node.kids@[k2] == old(node).kids@[k2]);
                                        assert(node.subtree(p) == old(node).subtree(p));
                                        assert(old(node).subtree(p) is Some);
                                    } else {
                                        assert(node.subtree(p) == kidf.subtree(p.drop_first()));
                                        if p.drop_first().len() == 0 {
                                            assert(kidf.subtree(p.drop_first()) == Some(kidf));
                                            assert(kidf.subtree(Seq::<char>::empty()) == Some(
                                                kidf,
                                            ));
                                            assert(local_ok(kidf));
                                            assert(kidf.marked(w@.skip(i + 1)));
                                        }
                                    }
                                },
                            }
                        }
                    }
                }
            },
            None => {
                proof {
                    lemma_key_index_props(old(node).keys@, c);
                }
                let chain = make_chain(w, i + 1);
                let ghost ch = chain;
                node.keys.push(c);
                node.kids.push(chain);
                proof {
                    let keys = old(node).keys@;
                    let klen = keys.len() as int;
                    assert(node.keys@ == keys.push(c));
                    assert(node.kids@ == old(node).kids@.push(ch));
                    assert(node.is_word == old(node).is_word);
                    assert(local_ok(*old(node)));
                    assert forall|d: char| true implies #[trigger] key_index(node.keys@, d)
                        == (if key_index(keys, d) is Some {
                        key_index(keys, d)
                    } else if d == c {
                        Some(klen)
                    } else {
                        None
                    }) by {
                        lemma_key_index_props(keys, d);
                        match key_index(keys, d) {
                            Some(k2) => {
                                lemma_key_index_first(node.keys@, d, k2);
                            },
                            None => {
                                if d == c {
                                    lemma_key_index_first(node.keys@, d, klen);
                                } else {
                                    lemma_key_index_none(node.keys@, d);
                                }
                            },
                        }
                    }
                    assert forall|u: Seq<char>|
                        node.marked(u) <==> (old(node).marked(u) || u == w@.skip(i as int)) by {
                        if u.len() == 0 {
                            assert(u != w@.skip(i as int));
                        } else {
                            lemma_key_index_props(keys, u[0]);
                            match key_index(keys, u[0]) {
                                Some(k2) => {
                                    assert(node.kids@[k2] == old(node).kids@[k2]);
                                    assert(u[0] != c);
                                    assert(u != w@.skip(i as int));
                                },
                                None => {
                                    if u[0] == c {
                                        assert(key_index(node.keys@, c) == Some(klen));
                                        assert(node.marked(u) == ch.marked(u.drop_first()));
                                        assert(!old(node).marked(u));
                                        if u.drop_first() == w@.skip(i + 1) {
                                            assert(u =~= w@.skip(i as int));
                                        }
                                        if u == w@.skip(i as int) {
                                            assert(u.drop_first() =~= w@.skip(i + 1));
                                        }
                                    } else {
                                        assert(key_index(node.keys@, u[0]) is None);
                                        assert(!node.marked(u));
                                        assert(u != w@.skip(i as int));
                                    }
                                },
                            }
                        }
                    }
                    assert forall|p: Seq<char>| #[trigger] node.subtree(p) is Some implies {
                        &&& local_ok(node.subtree(p).unwrap())
                        &&& p.len() > 0 ==> exists|u: Seq<char>|
                            node.subtree(p).unwrap().marked(u)
                    } by {
                        if p.len() == 0 {
                            assert(node.subtree(p) == Some(*node));
                            assert(node.keys@.len() == node.kids@.len());
                            assert forall|i1: int, j1: int|
                                0 <= i1 < j1 < node.keys@.len() implies node.keys@[i1]
                                != node.keys@[j1] by {
                                if j1 < klen {
                                } else {
                                    assert(node.keys@[j1] == c);
                                    assert(keys[i1] != c);
                                }
                            }
                        } else {
                            lemma_key_index_props(keys, p[0]);
                            match key_index(keys, p[0]) {
                                Some(k2) => {
                                    assert(node.kids@[k2] == old(node).kids@[k2]);
                                    assert(node.subtree(p) == old(node).subtree(p));
                                    assert(old(node).subtree(p) is Some);
                                },
                                None => {
                                    if p[0] == c {
                                        assert(key_index(node.keys@, c) == Some(klen));
                                        assert(node.subtree(p) == ch.subtree(p.drop_first()));
                                        assert(ch.subtree(p.drop_first()) is Some);
                                    } else {
                                        assert(key_index(node.keys@, p[0]) is None);
                                    }
                                },
                            }
                        }
                    }
                }
            },
        }
    }
}

/// A fresh copy of a word.
fn copy_chars(v: &Vec<char>) -> (r: Vec<char>)
    ensures
        r@ == v@,
{
    let mut r: Vec<char> = Vec::new();
    let mut j: usize = 0;
    while j < v.len()
        invariant
            j <= v@.len(),
            r@ == v@.take(j as int),
        decreases v@.len() - j,
    {
        r.push(v[j]);
        proof {
            assert(r@ =~= v@.take(j + 1));
        }
        j += 1;
    }
    proof {
        assert(r@ =~= v@);
    }
    r
}

/// Appends to `out`, exactly once each, every word `prefix + u` of total
/// length `l` whose suffix `u` is stored below `n`.
#[verifier::rlimit(100)]
fn collect_words(n: &Node, prefix: &Vec<char>, l: usize, out: &mut Vec<Vec<char>>)
    requires
        node_inv(*n),
        prefix@.len() <= l,
    ensures
        final(out)@.len() >= old(out)@.len(),
        forall|t: int| 0 <= t < old(out)@.len() ==> final(out)@[t] == old(out)@[t],
        forall|t: int| old(out)@.len() <= t < final(out)@.len() ==> {
            &&& final(out)@[t]@.len() == l
            &&& prefix@.is_prefix_of(final(out)@[t]@)
            &&& n.marked(final(out)@[t]@.skip(prefix@.len() as int))
        },
        forall|u: Seq<char>| n.marked(u) && prefix@.len() + u.len() == l ==> exists|t: int|
            old(out)@.len() <= t < final(out)@.len() && final(out)@[t]@ == prefix@ + u,
        forall|t1: int, t2: int|
            old(out)@.len() <= t1 < t2 < final(out)@.len()
                ==> final(out)@[t1]@ != final(out)@[t2]@,
    decreases *n,
{
    proof {
        assert(n.subtree(Seq::<char>::empty()) == Some(*n));
        assert(local_ok(*n));
    }
    if prefix.len() == l {
        if n.is_word {
            let cp = copy_chars(prefix);
            out.push(cp);
            proof {
                assert(prefix@.is_prefix_of(prefix@)) by {
                    assert(prefix@.subrange(0, prefix@.len() as int) =~= prefix@);
                }
                assert(prefix@.skip(prefix@.len() as int) =~= Seq::<char>::empty());
                assert forall|u: Seq<char>|
                    n.marked(u) && prefix@.len() + u.len() == l implies exists|t: int|
                    old(out)@.len() <= t < out@.len() && out@[t]@ == prefix@ + u by {
                    assert(u.len() == 0);
                    assert(prefix@ + u =~= prefix@);
                    assert(out@[old(out)@.len() as int]@ == prefix@ + u);
                }
            }
        } else {
            proof {
                assert forall|u: Seq<char>|
                    n.marked(u) && prefix@.len() + u.len() == l implies false by {
                    assert(u.len() == 0);
                }
            }
        }
    } else {
        let mut k: usize = 0;
        while k < n.keys.len()
            invariant
                node_inv(*n),
                local_ok(*n),
                prefix@.len() < l,
                k <= n.keys@.len(),
                out@.len() >= old(out)@.len(),
                forall|t: int| 0 <= t < old(out)@.len() ==> out@[t] == old(out)@[t],
                forall|t: int| old(out)@.len() <= t < out@.len() ==> {
                    &&& out@[t]@.len() == l
                    &&& prefix@.is_prefix_of(out@[t]@)
                    &&& n.marked(out@[t]@.skip(prefix@.len() as int))
                    &&& exists|k2: int| 0 <= k2 < k && out@[t]@[prefix@.len() as int]
                        == n.keys@[k2]
                },
                forall|u: Seq<char>| u.len() > 0 && n.marked(u) && prefix@.len() + u.len() == l
                    && (match key_index(n.keys@, u[0]) {
                    Some(k2) => 0 <= k2 < k,
                    None => false,
                }) ==> exists|t: int| old(out)@.len() <= t < out@.len() && out@[t]@ == prefix@
                    + u,
                forall|t1: int, t2: int| old(out)@.len() <= t1 < t2 < out@.len() ==> out@[t1]@
                    != out@[t2]@,
            decreases n.keys@.len() - k,
        {
            let c = n.keys[k];
            proof {
                lemma_key_index_first(n.keys@, c, k as int);
                lemma_subtree_single(*n, c);
                lemma_inv_subtree(*n, seq![c], n.kids@[k as int]);
            }
            let mut p2 = copy_chars(prefix);
            p2.push(c);
            let ghost out_mid = out@;
            collect_words(&n.kids[k], &p2, l, out);
            proof {
                assert(p2@ == prefix@ + seq![c]) by {
                    assert(p2@ =~= prefix@ + seq![c]);
                }
                assert forall|t: int| out_mid.len() <= t < out@.len() implies {
                    &&& out@[t]@.len() == l
                    &&& prefix@.is_prefix_of(out@[t]@)
                    &&& n.marked(out@[t]@.skip(prefix@.len() as int))
                    &&& exists|k2: int| 0 <= k2 < k + 1 && out@[t]@[prefix@.len() as int]
                        == n.keys@[k2]
                } by {
                    let e = out@[t]@;
                    assert(p2@.is_prefix_of(e));
                    assert(e.subrange(0, p2@.len() as int) == p2@);
                    assert(prefix@.is_prefix_of(e)) by {
                        assert(e.subrange(0, prefix@.len() as int) =~= prefix@);
                    }
                    assert(e.len() == l);
                    assert(p2@.len() == prefix@.len() + 1);
                    assert(p2@.len() <= e.len());
                    assert(p2@[prefix@.len() as int] == c);
                    assert(e[prefix@.len() as int] == c) by {
                        assert(e.subrange(0, p2@.len() as int)[prefix@.len() as int] == e[
                            prefix@.len() as int
                        ]);
                    }
                    assert(e.skip(prefix@.len() as int) =~= seq![c] + e.skip(p2@.len() as int));
                    assert(n.kids@[k as int].marked(e.skip(p2@.len() as int)));
                    assert(e.skip(prefix@.len() as int).drop_first() =~= e.skip(
                        p2@.len() as int,
                    ));
                    assert(e.skip(prefix@.len() as int)[0] == c);
                    assert(n.marked(e.skip(prefix@.len() as int)));
                    assert(0 <= k < k + 1 && e[prefix@.len() as int] == n.keys@[k as int]);
                }
                assert forall|u: Seq<char>|
                    u.len() > 0 && n.marked(u) && prefix@.len() + u.len() == l && (match key_index(
                    n.keys@,
                    u[0],
                ) {
                    Some(k2) => 0 <= k2 < k + 1,
                    None => false,
                }) implies exists|t: int|
                    old(out)@.len() <= t < out@.len() && out@[t]@ == prefix@ + u by {
                    let k2 = key_index(n.keys@, u[0]).unwrap();
                    if k2 < k {
                    } else {
                        assert(k2 == k as int);
                        lemma_key_index_props(n.keys@, u[0]);
                        assert(n.keys@[k as int] == u[0]);
                        assert(u[0] == c);
                        assert(n.kids@[k as int].marked(u.drop_first()));
                        assert(p2@.len() + u.drop_first().len() == l);
                        let t = choose|t: int|
                            out_mid.len() <= t < out@.len() && out@[t]@ == p2@ + u.drop_first();
                        assert(out@[t]@ == p2@ + u.drop_first());
                        assert(p2@ + u.drop_first() =~= prefix@ + u);
                    }
                }
                assert forall|t1: int, t2: int|
                    old(out)@.len() <= t1 < t2 < out@.len() implies out@[t1]@ != out@[t2]@ by {
                    if t1 < out_mid.len() && t2 >= out_mid.len() {
                        let e1 = out@[t1]@;
                        let e2 = out@[t2]@;
                        let k2 = choose|k2: int|
                            0 <= k2 < k && e1[prefix@.len() as int] == n.keys@[k2];
                        assert(p2@.is_prefix_of(e2));
                        assert(e2.subrange(0, p2@.len() as int) == p2@);
                        assert(e2[prefix@.len() as int] == c);
                        assert(n.keys@[k2] != n.keys@[k as int]);
                        assert(e1[prefix@.len() as int] != e2[prefix@.len() as int]);
                    }
                }
            }
            k += 1;
        }
        proof {
            assert forall|u: Seq<char>|
                n.marked(u) && prefix@.len() + u.len() == l implies exists|t: int|
                old(out)@.len() <= t < out@.len() && out@[t]@ == prefix@ + u by {
                assert(u.len() > 0);
                lemma_key_index_props(n.keys@, u[0]);
                assert(key_index(n.keys@, u[0]) is Some);
            }
        }
    }
}

impl PrefixDictionary {
    /// Every stored word of length exactly `l`, each exactly once. The
    /// order is fixed by the insertion history alone.
    pub fn words_of_length(&self, l: usize) -> (r: Vec<Vec<char>>)
        requires
            self.wf(),
        ensures
            forall|t: int| 0 <= t < r@.len() ==> r@[t]@.len() == l && self.words().contains(
                r@[t]@,
            ),
            forall|w: Seq<char>| self.words().contains(w) && w.len() == l ==> exists|t: int|
                0 <= t < r@.len() && r@[t]@ == w,
            forall|t1: int, t2: int| 0 <= t1 < t2 < r@.len() ==> r@[t1]@ != r@[t2]@,
    {
        let empty_prefix: Vec<char> = Vec::new();
        let mut out: Vec<Vec<char>> = Vec::new();
        collect_words(&self.root, &empty_prefix, l, &mut out);
        proof {
            assert forall|t: int| 0 <= t < out@.len() implies out@[t]@.len() == l
                && self.words().contains(out@[t]@) by {
                assert(out@[t]@.skip(0) =~= out@[t]@);
            }
            assert forall|w: Seq<char>|
                self.words().contains(w) && w.len() == l implies exists|t: int|
                0 <= t < out@.len() && out@[t]@ == w by {
                assert(self.root.marked(w));
                let t = choose|t: int| 0 <= t < out@.len() && out@[t]@ == Seq::<char>::empty()
                    + w;
                assert(Seq::<char>::empty() + w =~= w);
            }
        }
        out
    }

    /// The sub-dictionary holding exactly the stored words of length `l`.
    pub fn restricted_to_length(&self, l: usize) -> (d: Self)
        requires
            self.wf(),
        ensures
            d.wf(),
            forall|w: Seq<char>|
                d.words().contains(w) <==> (self.words().contains(w) && w.len() == l),
    {
        let ws = self.words_of_length(l);
        let mut d = PrefixDictionary::new();
        proof {
            if l == 0 && ws@.len() > 0 {
                assert(self.words().contains(ws@[0]@));
                assert(!self.root.is_word);
                assert(!self.words().contains(Seq::<char>::empty()));
                assert(ws@[0]@ =~= Seq::<char>::empty());
            }
        }
        let mut i: usize = 0;
        while i < ws.len()
            invariant
                i <= ws@.len(),
                d.wf(),
                l == 0 ==> ws@.len() == 0,
                forall|t: int| 0 <= t < ws@.len() ==> ws@[t]@.len() == l
                    && self.words().contains(ws@[t]@),
                forall|w: Seq<char>| self.words().contains(w) && w.len() == l ==> exists|t: int|
                    0 <= t < ws@.len() && ws@[t]@ == w,
                forall|w: Seq<char>|
                    d.words().contains(w) <==> exists|t: int| 0 <= t < i && ws@[t]@ == w,
            decreases ws@.len() - i,
        {
            let word = &ws[i];
            proof {
                assert(word@.len() == l);
                assert(l > 0);
            }
            let ghost dpre = d;
            let res = d.insert(word);
            proof {
                assert(res is Ok);
                assert(d.words() == dpre.words().insert(word@));
                assert forall|w: Seq<char>|
                    d.words().contains(w) <==> exists|t: int| 0 <= t < i + 1 && ws@[t]@ == w by {
                    if d.words().contains(w) {
                        if w == word@ {
                            assert(ws@[i as int]@ == w);
                        }
                    }
                }
            }
            i += 1;
        }
        proof {
            assert forall|w: Seq<char>|
                d.words().contains(w) <==> (self.words().contains(w) && w.len() == l) by {
                if d.words().contains(w) {
                    let t = choose|t: int| 0 <= t < i && ws@[t]@ == w;
                    assert(self.words().contains(ws@[t]@));
                }
            }
        }
        d
    }

    /// Stores `word`. Inserting an already-stored word changes nothing;
    /// an empty word is rejected and the dictionary is left untouched.
    pub fn insert(&mut self, word: &Vec<char>) -> (r: Result<(), WordSquareError>)
        requires
            old(self).wf(),
        ensures
            final(self).wf(),
            word@.len() == 0 ==> r == Err::<(), WordSquareError>(WordSquareError::InvalidWord)
                && *final(self) == *old(self),
            word@.len() > 0 ==> r == Ok::<(), WordSquareError>(())
                && final(self).words() == old(self).words().insert(word@),
    {
        if word.len() == 0 {
            return Err(WordSquareError::InvalidWord);
        }
        insert_node(&mut self.root, word, 0);
        proof {
            assert(word@.skip(0) =~= word@);
            assert(self.words() =~= old(self).words().insert(word@));
        }
        Ok(())
    }
}

/// Law of stored prefixes: every prefix of a stored word — the empty one
/// included — is the prefix of some stored word, so by the contract of
/// `continuations` the query on it is never absent; and on the word's full
/// symbol path the end-of-word marker is set, since the word is stored.
pub proof fn lemma_stored_word_prefixes(d: PrefixDictionary, w: Seq<char>, p: Seq<char>)
    requires
        d.wf(),
        d.words().contains(w),
        p.is_prefix_of(w),
    ensures
        exists|w2: Seq<char>| d.words().contains(w2) && p.is_prefix_of(w2),
{
    assert(d.words().contains(w) && p.is_prefix_of(w));
}

} // verus!
