//! The vocabulary as a byte-prefix trie.
use vstd::prelude::*;
use crate::filter::acceptor::ByteAcceptor;
use crate::filter::mask::TokenMask;

verus! {

/// Byte-prefix trie over the token vocabulary. Walking it against a byte acceptor yields
/// the allowed tokens at a cost that follows the live nodes, not the vocabulary.
pub struct VocabTrie {
    nodes: Nodes,
    pieces: Vec<String>,
    vocab: usize,
}

/// The nodes of a trie.
struct Nodes {
    /// For each node its children: byte and node.
    children: Vec<Vec<(u8, usize)>>,
    /// For each node the tokens whose pieces end there.
    terminal: Vec<Vec<usize>>,
    /// For each node the bytes that lead to it.
    paths: Ghost<Seq<Seq<u8>>>,
}

/// The bytes of piece `id`.
pub open spec fn piece_bytes(pieces: Seq<Seq<char>>, id: int) -> Seq<u8> {
    vstd::utf8::encode_utf8(pieces[id])
}

/// Whether `id` is a token that a trie of `table` finds: one of the table whose piece is not
/// empty.
pub open spec fn findable(table: Seq<Seq<char>>, id: int) -> bool {
    0 <= id < table.len() && piece_bytes(table, id).len() > 0
}

/// Texts of a list of strings.
pub open spec fn texts(v: Seq<String>) -> Seq<Seq<char>> {
    Seq::new(v.len(), |i: int| v[i]@)
}

/// Whether the tree of nodes is what `paths` says.
spec fn tree_ok(children: Seq<Vec<(u8, usize)>>, paths: Seq<Seq<u8>>) -> bool {
    &&& paths.len() == children.len()
    &&& paths.len() > 0
    &&& paths[0] == Seq::<u8>::empty()
    &&& forall|i: int, j: int| #![trigger paths[i], paths[j]]
        0 <= i < paths.len() && 0 <= j < paths.len() && paths[i] == paths[j] ==> i == j
    &&& forall|n: int, k: int|
        0 <= n < children.len() && 0 <= k < children[n]@.len() ==> edge_ok(paths, n, #[trigger] children[n]@[k])
    &&& forall|c: int| 0 < c < paths.len() ==> #[trigger] has_parent(children, c)
}

/// An edge leads from a node to one further on whose path is one byte longer.
spec fn edge_ok(paths: Seq<Seq<u8>>, n: int, e: (u8, usize)) -> bool {
    n < e.1 < paths.len() && paths[e.1 as int] == paths[n].push(e.0)
}

spec fn has_parent(children: Seq<Vec<(u8, usize)>>, c: int) -> bool {
    exists|n: int, k: int|
        0 <= n < children.len() && 0 <= k < children[n]@.len() && (#[trigger] children[n]@[k]).1 == c
}

/// Whether token `id` is one of those of node `m`.
spec fn ends_at(terminal: Seq<Vec<usize>>, m: int, id: int) -> bool {
    exists|k: int| 0 <= k < terminal[m]@.len() && #[trigger] terminal[m]@[k] == id
}

/// Every node's tokens are those, among the first `n`, whose pieces are the node's path; none
/// has an empty one.
spec fn ends_ok(terminal: Seq<Vec<usize>>, paths: Seq<Seq<u8>>, pieces: Seq<Seq<char>>, n: int) -> bool {
    &&& terminal.len() == paths.len()
    &&& forall|m: int, id: int|
        0 <= m < paths.len() ==> #[trigger] ends_at(terminal, m, id) == (m > 0 && 0 <= id < n && piece_bytes(pieces, id)
            == paths[m])
    &&& forall|j: int|
        0 <= j < n && (#[trigger] piece_bytes(pieces, j)).len() > 0 ==> exists|m: int|
            0 < m < paths.len() && #[trigger] paths[m] == piece_bytes(pieces, j)
}

/// Every prefix of a node's path is a node's path.
proof fn lemma_prefix(children: Seq<Vec<(u8, usize)>>, paths: Seq<Seq<u8>>, m: int, k: int) -> (n: int)
    requires
        tree_ok(children, paths),
        0 <= m < paths.len(),
        0 <= k <= paths[m].len(),
    ensures
        0 <= n < paths.len(),
        paths[n] == paths[m].take(k),
    decreases paths[m].len() - k,
{
    if k == paths[m].len() {
        assert(paths[m].take(k) =~= paths[m]);
        m
    } else {
        let c = lemma_prefix(children, paths, m, k + 1);
        assert(paths[c].len() > 0);
        assert(c != 0);
        assert(has_parent(children, c));
        let (n, j) = choose|n: int, j: int|
            0 <= n < children.len() && 0 <= j < children[n]@.len() && (#[trigger] children[n]@[j]).1 == c;
        assert(edge_ok(paths, n, children[n]@[j]));
        assert(paths[n] =~= paths[c].drop_last());
        assert(paths[c].drop_last() =~= paths[m].take(k));
        n
    }
}

/// A node whose path goes on from `node` with `u` lies below the child of `node` for the
/// first byte of `u`.
proof fn lemma_child(children: Seq<Vec<(u8, usize)>>, paths: Seq<Seq<u8>>, node: int, m: int, u: Seq<u8>) -> (k: int)
    requires
        tree_ok(children, paths),
        0 <= node < paths.len(),
        0 <= m < paths.len(),
        u.len() > 0,
        paths[m] == paths[node] + u,
    ensures
        0 <= k < children[node]@.len(),
        children[node]@[k].0 == u[0],
{
    let c = lemma_prefix(children, paths, m, paths[node].len() as int + 1);
    assert(paths[c] =~= paths[node].push(u[0]));
    assert(c != 0);
    assert(has_parent(children, c));
    let (n, j) = choose|n: int, j: int|
        0 <= n < children.len() && 0 <= j < children[n]@.len() && (#[trigger] children[n]@[j]).1 == c;
    assert(edge_ok(paths, n, children[n]@[j]));
    assert(paths[n] =~= paths[c].drop_last());
    assert(paths[c].drop_last() =~= paths[node]);
    assert(n == node);
    assert(paths[c].last() == u[0]);
    j
}

/// A token whose piece is the path of `node` becomes one of that node's.
proof fn lemma_ends_set(
    terminal: Seq<Vec<usize>>,
    t: Seq<Vec<usize>>,
    paths: Seq<Seq<u8>>,
    pieces: Seq<Seq<char>>,
    id: usize,
    node: int,
)
    requires
        ends_ok(terminal, paths, pieces, id as int),
        0 < node < paths.len(),
        t.len() == terminal.len(),
        t[node]@ == terminal[node]@.push(id),
        forall|m: int| 0 <= m < t.len() && m != node ==> #[trigger] t[m] == terminal[m],
        paths[node] == piece_bytes(pieces, id as int),
        forall|i: int, j: int| #![trigger paths[i], paths[j]]
            0 <= i < paths.len() && 0 <= j < paths.len() && paths[i] == paths[j] ==> i == j,
    ensures
        ends_ok(t, paths, pieces, id + 1),
{
    assert forall|m: int, x: int| 0 <= m < paths.len() implies #[trigger] ends_at(t, m, x) == (m > 0 && 0 <= x < id + 1
        && piece_bytes(pieces, x) == paths[m]) by {
        assert(ends_at(terminal, m, x) == (m > 0 && 0 <= x < id && piece_bytes(pieces, x) == paths[m]));
        let old_ends = terminal[m]@;
        let new_ends = t[m]@;
        if m != node {
            assert(t[m] == terminal[m]);
            assert(paths[m] != paths[node]);
            if ends_at(t, m, x) {
                let k = choose|k: int| 0 <= k < t[m]@.len() && #[trigger] t[m]@[k] == x;
                assert(terminal[m]@[k] == x);
            }
            if ends_at(terminal, m, x) {
                let k = choose|k: int| 0 <= k < terminal[m]@.len() && #[trigger] terminal[m]@[k] == x;
                assert(t[m]@[k] == x);
            }
        } else {
            if ends_at(t, m, x) {
                let k = choose|k: int| 0 <= k < t[m]@.len() && #[trigger] t[m]@[k] == x;
                if k < old_ends.len() {
                    assert(terminal[m]@[k] == x);
                }
            }
            if ends_at(terminal, m, x) {
                let k = choose|k: int| 0 <= k < terminal[m]@.len() && #[trigger] terminal[m]@[k] == x;
                assert(t[m]@[k] == x);
            }
            if x == id {
                assert(t[m]@[old_ends.len() as int] == x);
            }
        }
    }
    assert forall|j: int| 0 <= j < id + 1 && (#[trigger] piece_bytes(pieces, j)).len() > 0 implies exists|m: int|
        0 < m < paths.len() && #[trigger] paths[m] == piece_bytes(pieces, j) by {
        if j == id {
            assert(paths[node] == piece_bytes(pieces, j));
        }
    }
}

/// A token with an empty piece changes nothing.
proof fn lemma_ends_skip(terminal: Seq<Vec<usize>>, paths: Seq<Seq<u8>>, pieces: Seq<Seq<char>>, n: int)
    requires
        ends_ok(terminal, paths, pieces, n),
        n >= 0,
        piece_bytes(pieces, n).len() == 0,
        paths.len() > 0,
        paths[0] == Seq::<u8>::empty(),
        forall|i: int, j: int| #![trigger paths[i], paths[j]]
            0 <= i < paths.len() && 0 <= j < paths.len() && paths[i] == paths[j] ==> i == j,
    ensures
        ends_ok(terminal, paths, pieces, n + 1),
{
    assert forall|m: int, x: int| 0 <= m < paths.len() implies #[trigger] ends_at(terminal, m, x) == (m > 0 && 0 <= x < n
        + 1 && piece_bytes(pieces, x) == paths[m]) by {
        if m > 0 {
            assert(paths[m] != paths[0]);
            assert(piece_bytes(pieces, n) =~= paths[0]);
        }
    }
}

impl Nodes {
    spec fn ok(&self, pieces: Seq<Seq<char>>, n: int) -> bool {
        tree_ok(self.children@, self.paths@) && ends_ok(self.terminal@, self.paths@, pieces, n)
    }

    /// The node for `bytes`, made where there is none.
    fn add_path(&mut self, bytes: &[u8], Ghost(pieces): Ghost<Seq<Seq<char>>>, Ghost(n): Ghost<int>) -> (node: usize)
        requires
            old(self).ok(pieces, n),
            bytes@.len() > 0,
        ensures
            final(self).ok(pieces, n),
            0 < node < final(self).paths@.len(),
            final(self).paths@[node as int] == bytes@,
    {
        let mut node: usize = 0;
        let mut i: usize = 0;
        assert(bytes@.take(0) =~= seq![]);
        while i < bytes.len()
            invariant
                i <= bytes@.len(),
                self.ok(pieces, n),
                node < self.paths@.len(),
                self.paths@[node as int] == bytes@.take(i as int),
                i > 0 ==> node > 0,
            decreases bytes@.len() - i,
        {
            let b: u8 = bytes[i];
            let mut k: usize = 0;
            while k < self.children[node].len() && self.children[node][k].0 != b
                invariant
                    node < self.children@.len(),
                    k <= self.children@[node as int]@.len(),
                    forall|j: int| 0 <= j < k ==> (#[trigger] self.children@[node as int]@[j]).0 != b,
                decreases self.children@[node as int]@.len() - k,
            {
                k = k + 1;
            }
            proof {
                assert(bytes@.take(i + 1) =~= bytes@.take(i as int).push(b));
            }
            if k < self.children[node].len() {
                proof {
                    assert(edge_ok(self.paths@, node as int, self.children@[node as int]@[k as int]));
                }
                node = self.children[node][k].1;
            } else {
                node = self.add_node(node, b, Ghost(pieces), Ghost(n));
            }
            i = i + 1;
        }
        assert(bytes@.take(i as int) =~= bytes@);
        node
    }

    /// A new child of `node`.
    fn add_node(&mut self, node: usize, b: u8, Ghost(pieces): Ghost<Seq<Seq<char>>>, Ghost(n): Ghost<int>) -> (idx: usize)
        requires
            old(self).ok(pieces, n),
            node < old(self).paths@.len(),
            forall|j: int|
                0 <= j < old(self).children@[node as int]@.len() ==> (#[trigger] old(self).children@[node as int]@[j]).0 != b,
        ensures
            final(self).ok(pieces, n),
            0 < idx < final(self).paths@.len(),
            final(self).paths@[idx as int] == old(self).paths@[node as int].push(b),
    {
        let idx: usize = self.children.len();
        let ghost c0 = self.children@;
        let ghost p0 = self.paths@;
        let ghost t0 = self.terminal@;
        let ghost p = p0[node as int].push(b);
        proof {
            assert forall|m: int| 0 <= m < p0.len() implies p0[m] != p by {
                if p0[m] == p {
                    assert(p =~= p0[node as int] + seq![b]);
                    let k = lemma_child(c0, p0, node as int, m, seq![b]);
                    assert(c0[node as int]@[k].0 == b);
                }
            }
        }
        self.children.push(Vec::new());
        self.terminal.push(Vec::new());
        self.children[node].push((b, idx));
        self.paths = Ghost(p0.push(p));
        proof {
            let c = self.children@;
            let ps = self.paths@;
            assert(c[node as int]@ == c0[node as int]@.push((b, idx)));
            assert(c[idx as int]@ =~= seq![]);
            assert forall|m: int| 0 <= m < c0.len() && m != node implies c[m] == c0[m] by {}
            assert forall|i: int, j: int| #![trigger ps[i], ps[j]]
                0 <= i < ps.len() && 0 <= j < ps.len() && ps[i] == ps[j] implies i == j by {
                if i < p0.len() && j < p0.len() {
                    assert(p0[i] == p0[j]);
                } else if i < p0.len() {
                    assert(p0[i] != p);
                } else if j < p0.len() {
                    assert(p0[j] != p);
                }
            }
            assert forall|m: int, k: int| 0 <= m < c.len() && 0 <= k < c[m]@.len() implies edge_ok(
                ps,
                m,
                #[trigger] c[m]@[k],
            ) by {
                if m == node && k == c0[node as int]@.len() {
                } else if m < c0.len() {
                    assert(c[m]@[k] == c0[m]@[k]);
                    assert(edge_ok(p0, m, c0[m]@[k]));
                }
            }
            assert forall|x: int| 0 < x < ps.len() implies #[trigger] has_parent(c, x) by {
                if x == idx {
                    assert(c[node as int]@[c0[node as int]@.len() as int].1 == x);
                } else {
                    assert(has_parent(c0, x));
                    let (m, k) = choose|m: int, k: int|
                        0 <= m < c0.len() && 0 <= k < c0[m]@.len() && (#[trigger] c0[m]@[k]).1 == x;
                    assert(c[m]@[k] == c0[m]@[k]);
                }
            }
            let t = self.terminal@;
            assert forall|m: int, x: int| 0 <= m < ps.len() implies #[trigger] ends_at(t, m, x) == (m > 0 && 0 <= x < n
                && piece_bytes(pieces, x) == ps[m]) by {
                if m < p0.len() {
                    assert(t[m] == t0[m]);
                    assert(ends_at(t0, m, x) == (m > 0 && 0 <= x < n && piece_bytes(pieces, x) == p0[m]));
                    if ends_at(t, m, x) {
                        let k = choose|k: int| 0 <= k < t[m]@.len() && #[trigger] t[m]@[k] == x;
                        assert(t0[m]@[k] == x);
                    }
                    if ends_at(t0, m, x) {
                        let k = choose|k: int| 0 <= k < t0[m]@.len() && #[trigger] t0[m]@[k] == x;
                        assert(t[m]@[k] == x);
                    }
                } else if 0 <= x < n && piece_bytes(pieces, x) == p {
                    let q = choose|q: int| 0 < q < p0.len() && #[trigger] p0[q] == piece_bytes(pieces, x);
                    assert(p0[q] != p);
                }
            }
            assert forall|j: int| 0 <= j < n && (#[trigger] piece_bytes(pieces, j)).len() > 0 implies exists|m: int|
                0 < m < ps.len() && #[trigger] ps[m] == piece_bytes(pieces, j) by {
                let q = choose|q: int| 0 < q < p0.len() && #[trigger] p0[q] == piece_bytes(pieces, j);
                assert(ps[q] == p0[q]);
            }
        }
        idx
    }
}

/// Whether token `id` lies at `node` or below it through one of its first `k` children,
/// at the end of bytes that `acc` accepts.
spec fn met<A: ByteAcceptor>(nodes: Nodes, node: int, acc: A, k: int, id: int) -> bool {
    exists|m: int, u: Seq<u8>| #[trigger] met_at(nodes, node, acc, k, id, m, u)
}

spec fn met_at<A: ByteAcceptor>(nodes: Nodes, node: int, acc: A, k: int, id: int, m: int, u: Seq<u8>) -> bool {
    &&& 0 <= m < nodes.paths@.len()
    &&& nodes.paths@[m] == nodes.paths@[node] + u
    &&& ends_at(nodes.terminal@, m, id)
    &&& u.len() > 0 ==> acc.accepts(u) && first_in(nodes.children@[node]@, k, u[0])
}

/// Whether one of the first `k` edges is for byte `b`.
spec fn first_in(edges: Seq<(u8, usize)>, k: int, b: u8) -> bool {
    exists|j: int| 0 <= j < k && j < edges.len() && (#[trigger] edges[j]).0 == b
}

impl VocabTrie {
    /// The pieces of the vocabulary.
    pub closed spec fn table(&self) -> Seq<Seq<char>> {
        texts(self.pieces@)
    }

    /// The width of the masks.
    pub closed spec fn width(&self) -> int {
        self.vocab as int
    }

    /// The trie holds the pieces.
    pub closed spec fn inv(&self) -> bool {
        self.nodes.ok(self.table(), self.table().len() as int)
    }

    /// Whether `id` is a token that the trie finds: one of its table whose piece is not empty.
    pub open spec fn finds(&self, id: int) -> bool {
        findable(self.table(), id)
    }

    /// The trie of a piece table. Masks are `logit_vocab` wide, or as wide as the table
    /// where that is more.
    pub fn build(table: Vec<String>, logit_vocab: usize) -> (r: VocabTrie)
        ensures
            r.inv(),
            r.table() == texts(table@),
            r.width() == if logit_vocab >= table@.len() {
                logit_vocab as int
            } else {
                table@.len() as int
            },
    {
        let vocab: usize = if logit_vocab >= table.len() {
            logit_vocab
        } else {
            table.len()
        };
        let ghost root = Seq::<Seq<u8>>::empty().push(Seq::<u8>::empty());
        let mut nodes = Nodes { children: Vec::new(), terminal: Vec::new(), paths: Ghost(root) };
        nodes.children.push(Vec::new());
        nodes.terminal.push(Vec::new());
        let ghost pieces = texts(table@);
        proof {
            let c = nodes.children@;
            let ps = nodes.paths@;
            assert forall|n: int, k: int| 0 <= n < c.len() && 0 <= k < c[n]@.len() implies edge_ok(
                ps,
                n,
                #[trigger] c[n]@[k],
            ) by {}
            assert forall|m: int, x: int| 0 <= m < ps.len() implies !(#[trigger] ends_at(nodes.terminal@, m, x)) by {
                assert(nodes.terminal@[0]@.len() == 0);
            }
        }
        let mut id: usize = 0;
        while id < table.len()
            invariant
                id <= table@.len(),
                pieces == texts(table@),
                nodes.ok(pieces, id as int),
            decreases table@.len() - id,
        {
            let bytes = table[id].as_str().as_bytes();
            assert(bytes@ == piece_bytes(pieces, id as int));
            if bytes.len() > 0 {
                let node = nodes.add_path(bytes, Ghost(pieces), Ghost(id as int));
                let ghost before = nodes.terminal@;
                nodes.terminal[node].push(id);
                proof {
                    lemma_ends_set(before, nodes.terminal@, nodes.paths@, pieces, id, node as int);
                }
            } else {
                proof {
                    lemma_ends_skip(nodes.terminal@, nodes.paths@, pieces, id as int);
                }
            }
            id = id + 1;
        }
        VocabTrie { nodes, pieces: table, vocab }
    }

    /// The width of the masks.
    pub fn vocab(&self) -> (r: usize)
        ensures
            r == self.width(),
    {
        self.vocab
    }

    /// The piece of a token; empty where the id is past the table.
    pub fn piece(&self, id: i64) -> (r: &str)
        ensures
            r@ == if 0 <= id < self.table().len() {
                self.table()[id as int]
            } else {
                seq![]
            },
    {
        if id < 0 || id as u64 >= self.pieces.len() as u64 {
            proof {
                reveal_strlit("");
            }
            assert(""@ =~= seq![]);
            return "";
        }
        self.pieces[id as usize].as_str()
    }

    /// Allow, in `out`, every token that the trie finds and whose bytes `acc` accepts.
    pub fn collect_allowed<A: ByteAcceptor>(&self, acc: &A, out: &mut TokenMask)
        requires
            self.inv(),
            acc.inv(),
            old(out).wf(),
        ensures
            final(out).wf(),
            final(out).width() == old(out).width(),
            forall|id: int|
                #[trigger] final(out).has(id) == (old(out).has(id) || (id < old(out).width() && self.finds(id)
                    && acc.accepts(piece_bytes(self.table(), id)))),
    {
        self.walk(0, acc, out);
        proof {
            let t = self.table();
            let ps = self.nodes.paths@;
            let edges = self.nodes.children@[0]@;
            assert forall|id: int| met(self.nodes, 0, *acc, edges.len() as int, id) == (self.finds(id) && acc.accepts(
                piece_bytes(t, id),
            )) by {
                if met(self.nodes, 0, *acc, edges.len() as int, id) {
                    let (m, u) = choose|m: int, u: Seq<u8>| #[trigger]
                        met_at(self.nodes, 0, *acc, edges.len() as int, id, m, u);
                    assert(ps[m] =~= u);
                    assert(ends_at(self.nodes.terminal@, m, id));
                    assert(m != 0);
                    assert(ps[m] != ps[0]);
                    if u.len() == 0 {
                        assert(ps[m] =~= ps[0]);
                    }
                }
                if self.finds(id) && acc.accepts(piece_bytes(t, id)) {
                    let u = piece_bytes(t, id);
                    let m = choose|m: int| 0 < m < ps.len() && #[trigger] ps[m] == piece_bytes(t, id);
                    assert(ps[m] =~= ps[0] + u);
                    let k = lemma_child(self.nodes.children@, ps, 0, m, u);
                    assert(edges[k].0 == u[0]);
                    assert(ends_at(self.nodes.terminal@, m, id));
                    assert(met_at(self.nodes, 0, *acc, edges.len() as int, id, m, u));
                }
            }
        }
    }

    fn walk<A: ByteAcceptor>(&self, node: usize, acc: &A, out: &mut TokenMask)
        requires
            self.inv(),
            node < self.nodes.paths@.len(),
            acc.inv(),
            old(out).wf(),
        ensures
            final(out).wf(),
            final(out).width() == old(out).width(),
            forall|id: int|
                #[trigger] final(out).has(id) == (old(out).has(id) || (id < old(out).width() && met(
                    self.nodes,
                    node as int,
                    *acc,
                    self.nodes.children@[node as int]@.len() as int,
                    id,
                ))),
        decreases self.nodes.paths@.len() - node,
    {
        let ghost ps = self.nodes.paths@;
        let ghost edges = self.nodes.children@[node as int]@;
        let mut e: usize = 0;
        while e < self.nodes.terminal[node].len()
            invariant
                node < self.nodes.terminal@.len(),
                e <= self.nodes.terminal@[node as int]@.len(),
                out.wf(),
                out.width() == old(out).width(),
                forall|id: int|
                    #[trigger] out.has(id) == (old(out).has(id) || (id < old(out).width() && exists|j: int|
                        0 <= j < e && #[trigger] self.nodes.terminal@[node as int]@[j] == id)),
            decreases self.nodes.terminal@[node as int]@.len() - e,
        {
            let ghost before = *out;
            let t: usize = self.nodes.terminal[node][e];
            out.allow(t);
            proof {
                let ends = self.nodes.terminal@[node as int]@;
                assert forall|id: int| #[trigger] out.has(id) == (old(out).has(id) || (id < old(out).width() && exists|j: int|
                    0 <= j < e + 1 && #[trigger] self.nodes.terminal@[node as int]@[j] == id)) by {
                    assert(before.has(id) == (old(out).has(id) || (id < old(out).width() && exists|j: int|
                        0 <= j < e && #[trigger] self.nodes.terminal@[node as int]@[j] == id)));
                    assert(ends[e as int] == t);
                }
            }
            e = e + 1;
        }
        proof {
            assert forall|id: int| #[trigger] out.has(id) == (old(out).has(id) || (id < old(out).width() && met(
                self.nodes,
                node as int,
                *acc,
                0,
                id,
            ))) by {
                if ends_at(self.nodes.terminal@, node as int, id) {
                    assert(ps[node as int] =~= ps[node as int] + Seq::<u8>::empty());
                    assert(met_at(self.nodes, node as int, *acc, 0, id, node as int, seq![]));
                }
                if met(self.nodes, node as int, *acc, 0, id) {
                    let (m, u) = choose|m: int, u: Seq<u8>| #[trigger]
                        met_at(self.nodes, node as int, *acc, 0, id, m, u);
                    assert(u.len() == 0);
                    assert(ps[m] =~= ps[node as int]);
                    assert(m == node);
                }
            }
        }
        let mut k: usize = 0;
        while k < self.nodes.children[node].len()
            invariant
                self.inv(),
                node < self.nodes.paths@.len(),
                ps == self.nodes.paths@,
                edges == self.nodes.children@[node as int]@,
                k <= edges.len(),
                acc.inv(),
                out.wf(),
                out.width() == old(out).width(),
                forall|id: int|
                    #[trigger] out.has(id) == (old(out).has(id) || (id < old(out).width() && met(
                        self.nodes,
                        node as int,
                        *acc,
                        k as int,
                        id,
                    ))),
            decreases edges.len() - k,
        {
            let (b, child) = self.nodes.children[node][k];
            assert(edge_ok(ps, node as int, edges[k as int]));
            let ghost before = *out;
            let step = acc.step(b);
            if let Some(next) = &step {
                self.walk(child, next, out);
            }
            proof {
                let cedges = self.nodes.children@[child as int]@;
                assert forall|id: int| #[trigger] met(self.nodes, node as int, *acc, k + 1, id) == (met(
                    self.nodes,
                    node as int,
                    *acc,
                    k as int,
                    id,
                ) || match step {
                    Some(next) => met(self.nodes, child as int, next, cedges.len() as int, id),
                    None => false,
                }) by {
                    if met(self.nodes, node as int, *acc, k as int, id) {
                        let (m, u) = choose|m: int, u: Seq<u8>| #[trigger]
                            met_at(self.nodes, node as int, *acc, k as int, id, m, u);
                        assert(met_at(self.nodes, node as int, *acc, k + 1, id, m, u));
                    }
                    if step is Some && met(self.nodes, child as int, step->0, cedges.len() as int, id) {
                        let next = step->0;
                        let (m, v) = choose|m: int, v: Seq<u8>| #[trigger]
                            met_at(self.nodes, child as int, next, cedges.len() as int, id, m, v);
                        let u = seq![b] + v;
                        assert(ps[m] =~= ps[node as int] + u);
                        if v.len() == 0 {
                            assert(u =~= seq![b]);
                        } else {
                            assert(next.accepts(v));
                        }
                        assert(edges[k as int].0 == b);
                        assert(met_at(self.nodes, node as int, *acc, k + 1, id, m, u));
                    }
                    if met(self.nodes, node as int, *acc, k + 1, id) {
                        let (m, u) = choose|m: int, u: Seq<u8>| #[trigger]
                            met_at(self.nodes, node as int, *acc, k + 1, id, m, u);
                        if u.len() == 0 || first_in(edges, k as int, u[0]) {
                            assert(met_at(self.nodes, node as int, *acc, k as int, id, m, u));
                        } else {
                            assert(u[0] == b);
                            let v = u.drop_first();
                            assert(u =~= seq![b] + v);
                            assert(acc.accepts(seq![b] + v));
                            assert(step is Some);
                            let next = step->0;
                            assert(next.accepts(v));
                            assert(ps[m] =~= ps[child as int] + v);
                            if v.len() > 0 {
                                let j = lemma_child(self.nodes.children@, ps, child as int, m, v);
                                assert(cedges[j].0 == v[0]);
                            }
                            assert(met_at(self.nodes, child as int, next, cedges.len() as int, id, m, v));
                        }
                    }
                }
                assert forall|id: int| #[trigger] out.has(id) == (old(out).has(id) || (id < old(out).width() && met(
                    self.nodes,
                    node as int,
                    *acc,
                    k + 1,
                    id,
                ))) by {
                    assert(before.has(id) == (old(out).has(id) || (id < old(out).width() && met(
                        self.nodes,
                        node as int,
                        *acc,
                        k as int,
                        id,
                    ))));
                    let now = met(self.nodes, node as int, *acc, k + 1, id);
                }
            }
            k = k + 1;
        }
    }
}

} // verus!
