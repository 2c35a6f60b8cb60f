//! A loser tree: a tournament over the current keys of several sorted
//! cursors that yields the cursor with the smallest key, and is repaired in
//! a number of steps logarithmic in the number of cursors after that
//! cursor's key changes.
use vstd::prelude::*;
use crate::keys::{key_lt, lex_lt, lemma_lex_asymmetric, lemma_lex_irreflexive, lemma_lex_total, lemma_lex_transitive};

verus! {

/// The current key of a cursor: `None` once the cursor is finished.
pub open spec fn opt_key(k: Option<Vec<u8>>) -> Option<Seq<u8>> {
    match k {
        Some(v) => Some(v@),
        None => None,
    }
}

/// `a` ranks strictly before `b`: a finished cursor ranks after every
/// unfinished one, and unfinished cursors rank by their keys.
pub open spec fn ranks_before(a: Option<Seq<u8>>, b: Option<Seq<u8>>) -> bool {
    match a {
        None => false,
        Some(x) => match b {
            None => true,
            Some(y) => lex_lt(x, y),
        },
    }
}

pub proof fn lemma_ranks_irreflexive(a: Option<Seq<u8>>)
    ensures
        !ranks_before(a, a),
{
    if let Some(x) = a {
        lemma_lex_irreflexive(x);
    }
}

pub proof fn lemma_ranks_asymmetric(a: Option<Seq<u8>>, b: Option<Seq<u8>>)
    requires
        ranks_before(a, b),
    ensures
        !ranks_before(b, a),
{
    if let (Some(x), Some(y)) = (a, b) {
        lemma_lex_asymmetric(x, y);
    }
}

/// "Does not rank before" is transitive.
pub proof fn lemma_ranks_not_before_transitive(
    a: Option<Seq<u8>>,
    b: Option<Seq<u8>>,
    c: Option<Seq<u8>>,
)
    requires
        !ranks_before(a, b),
        !ranks_before(b, c),
    ensures
        !ranks_before(a, c),
{
    if let (Some(x), Some(y), Some(z)) = (a, b, c) {
        if lex_lt(x, z) {
            lemma_lex_total(x, y);
            if lex_lt(x, y) {
            } else if x == y {
            } else {
                lemma_lex_transitive(y, x, z);
            }
        }
    }
}

/// Exec form of `ranks_before`.
pub fn rank_before(a: &Option<Vec<u8>>, b: &Option<Vec<u8>>) -> (r: bool)
    ensures
        r == ranks_before(opt_key(*a), opt_key(*b)),
{
    match a {
        None => false,
        Some(x) => match b {
            None => true,
            Some(y) => key_lt(x.as_slice(), y.as_slice()),
        },
    }
}

/// Node `k` lies on the path from node `m` up to the root (node 1); nodes
/// are numbered as in a binary heap, the children of `k` being `2k` and
/// `2k + 1`.
pub open spec fn is_anc(k: int, m: int) -> bool
    decreases m,
{
    if m <= 0 || m < k {
        false
    } else if m == k {
        true
    } else {
        is_anc(k, m / 2)
    }
}

/// The winner of the match at node `node` of a tree over `ks`: leaves are
/// nodes `n .. 2n`, leaf `n + i` standing for cursor `i`. On equal ranks the
/// left child wins.
pub open spec fn win(ks: Seq<Option<Seq<u8>>>, n: int, node: int) -> int
    decreases 2 * n - node,
{
    if node <= 0 || node >= 2 * n {
        0
    } else if node >= n {
        node - n
    } else {
        let a = win(ks, n, 2 * node);
        let b = win(ks, n, 2 * node + 1);
        if ranks_before(ks[b], ks[a]) {
            b
        } else {
            a
        }
    }
}

/// The loser of the match at internal node `node`.
pub open spec fn lose(ks: Seq<Option<Seq<u8>>>, n: int, node: int) -> int {
    let a = win(ks, n, 2 * node);
    let b = win(ks, n, 2 * node + 1);
    if ranks_before(ks[b], ks[a]) {
        a
    } else {
        b
    }
}

proof fn lemma_anc_ge(k: int, m: int)
    requires
        is_anc(k, m),
    ensures
        k <= m,
        1 <= m,
    decreases m,
{
}

proof fn lemma_anc_parent(node: int, m: int)
    requires
        is_anc(node, m),
        node >= 2,
    ensures
        is_anc(node / 2, m),
    decreases m,
{
    if m == node {
        assert(is_anc(node / 2, node / 2));
    } else {
        lemma_anc_parent(node, m / 2);
    }
}

proof fn lemma_anc_root(m: int)
    requires
        m >= 1,
    ensures
        is_anc(1, m),
    decreases m,
{
    if m > 1 {
        lemma_anc_root(m / 2);
    }
}

proof fn lemma_anc_chain(a: int, b: int, m: int)
    requires
        is_anc(a, m),
        is_anc(b, m),
    ensures
        is_anc(a, b) || is_anc(b, a),
    decreases m,
{
    if m != a && m != b {
        lemma_anc_chain(a, b, m / 2);
    }
}

proof fn lemma_anc_child(k: int, m: int)
    requires
        is_anc(k, m),
        k < m,
        k >= 1,
    ensures
        is_anc(2 * k, m) || is_anc(2 * k + 1, m),
    decreases m,
{
    if m / 2 == k {
        assert(is_anc(m, m));
    } else {
        lemma_anc_child(k, m / 2);
        lemma_anc_ge(k, m / 2);
    }
}

/// Two children of one node are not on each other's paths to the root.
proof fn lemma_siblings_apart(c: int, s: int, m: int)
    requires
        c >= 2,
        s >= 2,
        c / 2 == s / 2,
        c != s,
        is_anc(c, m),
    ensures
        !is_anc(s, m),
{
    if is_anc(s, m) {
        lemma_anc_chain(c, s, m);
        if is_anc(c, s) {
            lemma_anc_parent_ge(c, s);
        } else {
            lemma_anc_parent_ge(s, c);
        }
    }
}

proof fn lemma_anc_parent_ge(k: int, m: int)
    requires
        is_anc(k, m),
        k != m,
    ensures
        k <= m / 2,
{
    lemma_anc_ge(k, m / 2);
}

/// The winner at a node is a leaf below it.
proof fn lemma_win_below(ks: Seq<Option<Seq<u8>>>, n: int, node: int)
    requires
        1 <= node < 2 * n,
    ensures
        0 <= win(ks, n, node) < n,
        is_anc(node, n + win(ks, n, node)),
    decreases 2 * n - node,
{
    if node >= n {
        assert(is_anc(node, node));
    } else {
        lemma_win_below(ks, n, 2 * node);
        lemma_win_below(ks, n, 2 * node + 1);
        let w = win(ks, n, node);
        if w == win(ks, n, 2 * node) {
            lemma_anc_parent(2 * node, n + w);
        } else {
            lemma_anc_parent(2 * node + 1, n + w);
        }
    }
}

/// Changing the key of cursor `w` leaves every match off its path as it was.
proof fn lemma_win_off_path(
    ks: Seq<Option<Seq<u8>>>,
    ks2: Seq<Option<Seq<u8>>>,
    n: int,
    w: int,
    node: int,
)
    requires
        ks.len() == n,
        ks2.len() == n,
        0 <= w < n,
        forall|i: int| 0 <= i < n && i != w ==> ks2[i] == ks[i],
        1 <= node < 2 * n,
        !is_anc(node, n + w),
    ensures
        win(ks2, n, node) == win(ks, n, node),
    decreases 2 * n - node,
{
    if node < n {
        if is_anc(2 * node, n + w) {
            lemma_anc_parent(2 * node, n + w);
        }
        if is_anc(2 * node + 1, n + w) {
            lemma_anc_parent(2 * node + 1, n + w);
        }
        lemma_win_off_path(ks, ks2, n, w, 2 * node);
        lemma_win_off_path(ks, ks2, n, w, 2 * node + 1);
        lemma_win_below(ks, n, 2 * node);
        lemma_win_below(ks, n, 2 * node + 1);
    }
}

proof fn lemma_lose_off_path(
    ks: Seq<Option<Seq<u8>>>,
    ks2: Seq<Option<Seq<u8>>>,
    n: int,
    w: int,
    k: int,
)
    requires
        ks.len() == n,
        ks2.len() == n,
        0 <= w < n,
        forall|i: int| 0 <= i < n && i != w ==> ks2[i] == ks[i],
        1 <= k < n,
        !is_anc(k, n + w),
    ensures
        lose(ks2, n, k) == lose(ks, n, k),
        win(ks2, n, k) == win(ks, n, k),
{
    if is_anc(2 * k, n + w) {
        lemma_anc_parent(2 * k, n + w);
    }
    if is_anc(2 * k + 1, n + w) {
        lemma_anc_parent(2 * k + 1, n + w);
    }
    lemma_win_off_path(ks, ks2, n, w, 2 * k);
    lemma_win_off_path(ks, ks2, n, w, 2 * k + 1);
    lemma_win_below(ks, n, 2 * k);
    lemma_win_below(ks, n, 2 * k + 1);
    let a = win(ks, n, 2 * k);
    let b = win(ks, n, 2 * k + 1);
    if a == w {
        lemma_anc_parent(2 * k, n + w);
    }
    if b == w {
        lemma_anc_parent(2 * k + 1, n + w);
    }
}

/// The overall winner wins every match on its own path.
proof fn lemma_win_on_path(ks: Seq<Option<Seq<u8>>>, n: int, node: int)
    requires
        1 <= node < 2 * n,
        is_anc(node, n + win(ks, n, 1)),
    ensures
        win(ks, n, node) == win(ks, n, 1),
    decreases node,
{
    if node > 1 {
        let w = win(ks, n, 1);
        let q = node / 2;
        lemma_anc_parent(node, n + w);
        lemma_win_on_path(ks, n, q);
        let s = if node % 2 == 0 {
            node + 1
        } else {
            node - 1
        };
        lemma_win_below(ks, n, s);
        if win(ks, n, s) == w {
            lemma_siblings_apart(node, s, n + w);
        }
    }
}

/// The winner at a node ranks no later than any leaf below it.
proof fn lemma_win_least(ks: Seq<Option<Seq<u8>>>, n: int, node: int, i: int)
    requires
        ks.len() == n,
        0 <= i < n,
        1 <= node,
        is_anc(node, n + i),
    ensures
        !ranks_before(ks[i], ks[win(ks, n, node)]),
    decreases n + i - node,
{
    lemma_anc_ge(node, n + i);
    if node == n + i {
        lemma_ranks_irreflexive(ks[i]);
    } else {
        lemma_anc_parent_ge(node, n + i);
        lemma_anc_child(node, n + i);
        let c = if is_anc(2 * node, n + i) {
            2 * node
        } else {
            2 * node + 1
        };
        lemma_win_least(ks, n, c, i);
        lemma_win_below(ks, n, 2 * node);
        lemma_win_below(ks, n, 2 * node + 1);
        let a = win(ks, n, 2 * node);
        let b = win(ks, n, 2 * node + 1);
        if ranks_before(ks[b], ks[a]) {
            lemma_ranks_asymmetric(ks[b], ks[a]);
            lemma_ranks_irreflexive(ks[b]);
        } else {
            lemma_ranks_irreflexive(ks[a]);
        }
        lemma_ranks_not_before_transitive(ks[i], ks[win(ks, n, c)], ks[win(ks, n, node)]);
    }
}

/// A loser tree over the current keys of `n >= 1` cursors. Internal node `k`
/// (`1 <= k < n`) holds the cursor that lost the match there; slot 0 holds
/// the overall winner.
pub struct LoserTree {
    losers: Vec<usize>,
    keys: Vec<Option<Vec<u8>>>,
}

impl View for LoserTree {
    type V = Seq<Option<Seq<u8>>>;

    closed spec fn view(&self) -> Seq<Option<Seq<u8>>> {
        self.keys@.map_values(|k: Option<Vec<u8>>| opt_key(k))
    }
}

impl LoserTree {
    /// The tree is consistent with its keys.
    pub closed spec fn wf(&self) -> bool {
        let n = self.keys@.len() as int;
        let ks = self@;
        &&& 1 <= n < usize::MAX / 4
        &&& self.losers@.len() == n
        &&& self.losers@[0] == win(ks, n, 1)
        &&& forall|k: int| 1 <= k < n ==> #[trigger] self.losers@[k] == lose(ks, n, k)
    }

    /// The cursor whose key ranks first.
    pub closed spec fn winner(&self) -> int {
        self.losers@[0] as int
    }

    /// Builds the tree over the cursors' current keys.
    pub fn new(keys: Vec<Option<Vec<u8>>>) -> (r: Self)
        requires
            1 <= keys@.len() < usize::MAX / 4,
        ensures
            r.wf(),
            r@ == keys@.map_values(|k: Option<Vec<u8>>| opt_key(k)),
    {
        let n = keys.len();
        let ghost ks = keys@.map_values(|k: Option<Vec<u8>>| opt_key(k));
        let mut losers: Vec<usize> = Vec::new();
        let mut winners: Vec<usize> = Vec::new();
        let mut i: usize = 0;
        while i < n
            invariant
                i <= n,
                losers@.len() == i,
                winners@.len() == i,
            decreases n - i,
        {
            losers.push(0);
            winners.push(0);
            i = i + 1;
        }
        let mut node: usize = n;
        while node > 1
            invariant
                1 <= node <= n,
                n == keys@.len(),
                n < usize::MAX / 4,
                ks == keys@.map_values(|k: Option<Vec<u8>>| opt_key(k)),
                losers@.len() == n,
                winners@.len() == n,
                forall|k: int|
                    node <= k < n ==> #[trigger] winners@[k] == win(ks, n as int, k) && losers@[k]
                        == lose(ks, n as int, k),
            decreases node,
        {
            node = node - 1;
            let l = 2 * node;
            let a = if l >= n {
                l - n
            } else {
                winners[l]
            };
            let b = if l + 1 >= n {
                l + 1 - n
            } else {
                winners[l + 1]
            };
            proof {
                lemma_win_below(ks, n as int, l as int);
                lemma_win_below(ks, n as int, l + 1);
            }
            proof {
                assert(a == win(ks, n as int, l as int));
                assert(b == win(ks, n as int, l + 1));
                assert(ks[a as int] == opt_key(keys@[a as int]));
                assert(ks[b as int] == opt_key(keys@[b as int]));
            }
            let ghost w0 = winners@;
            let ghost l0 = losers@;
            if rank_before(&keys[b], &keys[a]) {
                winners.set(node, b);
                losers.set(node, a);
            } else {
                winners.set(node, a);
                losers.set(node, b);
            }
            proof {
                assert forall|k: int| node <= k < n implies #[trigger] winners@[k] == win(ks, n as int, k)
                    && losers@[k] == lose(ks, n as int, k) by {
                    if k != node {
                        assert(w0[k] == win(ks, n as int, k));
                    }
                }
            }
        }
        let top = if n == 1 {
            0
        } else {
            winners[1]
        };
        let ghost l0 = losers@;
        losers.set(0, top);
        let r = LoserTree { losers, keys };
        proof {
            assert(r@ == ks);
            assert forall|k: int| 1 <= k < n implies #[trigger] r.losers@[k] == lose(ks, n as int, k) by {
                assert(r.losers@[k] == l0[k]);
                assert(winners@[k] == win(ks, n as int, k));
            }
        }
        r
    }

    pub fn len(&self) -> (r: usize)
        ensures
            r == self@.len(),
    {
        self.keys.len()
    }

    /// The cursor that ranks first: no cursor ranks strictly before it.
    pub fn peek(&self) -> (r: usize)
        requires
            self.wf(),
        ensures
            r < self@.len(),
            r == self.winner(),
            forall|i: int| 0 <= i < self@.len() ==> !ranks_before(#[trigger] self@[i], self@[r as int]),
    {
        let n = self.keys.len();
        proof {
            lemma_win_below(self@, n as int, 1);
            assert forall|i: int| 0 <= i < self@.len() implies !ranks_before(
                #[trigger] self@[i],
                self@[self.losers@[0] as int],
            ) by {
                lemma_anc_root(n + i);
                lemma_win_least(self@, n as int, 1, i);
            }
        }
        self.losers[0]
    }

    /// The current key of cursor `i`.
    pub fn key(&self, i: usize) -> (r: &Option<Vec<u8>>)
        requires
            i < self@.len(),
        ensures
            opt_key(*r) == self@[i as int],
    {
        &self.keys[i]
    }

    /// Gives the winning cursor the key `key` and replays the matches on its
    /// path.
    pub fn replace_winner_key(&mut self, key: Option<Vec<u8>>)
        requires
            old(self).wf(),
        ensures
            final(self).wf(),
            final(self)@ == old(self)@.update(old(self).winner(), opt_key(key)),
    {
        let n = self.keys.len();
        let w = self.losers[0];
        let ghost ks_old = self@;
        proof {
            lemma_win_below(ks_old, n as int, 1);
        }
        self.keys.set(w, key);
        let ghost ks = self@;
        assert(ks =~= ks_old.update(w as int, opt_key(key)));
        let mut c: usize = n + w;
        let mut cur: usize = w;
        proof {
            assert(is_anc(c as int, c as int));
            assert forall|k: int| 1 <= k < n implies #[trigger] self.losers@[k] == if is_anc(k, n + w)
                && k < c {
                lose(ks_old, n as int, k)
            } else {
                lose(ks, n as int, k)
            } by {
                if !is_anc(k, n + w) {
                    lemma_lose_off_path(ks_old, ks, n as int, w as int, k);
                }
            }
        }
        while c > 1
            invariant
                1 <= c < 2 * n,
                n == self.keys@.len(),
                1 <= n < usize::MAX / 4,
                w < n,
                w == win(ks_old, n as int, 1),
                ks == self@,
                ks.len() == n,
                ks_old.len() == n,
                ks == ks_old.update(w as int, opt_key(key)),
                is_anc(c as int, n + w),
                cur == win(ks, n as int, c as int),
                self.losers@.len() == n,
                forall|k: int|
                    1 <= k < n ==> #[trigger] self.losers@[k] == if is_anc(k, n + w) && k < c {
                        lose(ks_old, n as int, k)
                    } else {
                        lose(ks, n as int, k)
                    },
            decreases c,
        {
            let p = c / 2;
            let s: usize = if c % 2 == 0 {
                c + 1
            } else {
                c - 1
            };
            let challenger = self.losers[p];
            proof {
                lemma_anc_parent(c as int, n + w);
                lemma_siblings_apart(c as int, s as int, n + w);
                lemma_win_on_path(ks_old, n as int, c as int);
                lemma_win_on_path(ks_old, n as int, p as int);
                lemma_win_below(ks_old, n as int, s as int);
                lemma_win_off_path(ks_old, ks, n as int, w as int, s as int);
                lemma_anc_ge(p as int, n + w);
                assert(p < n);
                assert(challenger == win(ks, n as int, s as int));
            }
            let (a, b) = if c % 2 == 0 {
                (cur, challenger)
            } else {
                (challenger, cur)
            };
            proof {
                lemma_win_below(ks, n as int, c as int);
                lemma_win_below(ks, n as int, s as int);
            }
            let ghost losers0 = self.losers@;
            if rank_before(&self.keys[b], &self.keys[a]) {
                self.losers.set(p, a);
                cur = b;
            } else {
                self.losers.set(p, b);
                cur = a;
            }
            proof {
                assert forall|k: int| 1 <= k < n implies #[trigger] self.losers@[k] == if is_anc(
                    k,
                    n + w,
                ) && k < p {
                    lose(ks_old, n as int, k)
                } else {
                    lose(ks, n as int, k)
                } by {
                    if k != p {
                        assert(self.losers@[k] == losers0[k]);
                        if !is_anc(k, n + w) {
                            lemma_lose_off_path(ks_old, ks, n as int, w as int, k);
                        } else if k >= c {
                        } else {
                            lemma_anc_chain(k, c as int, n + w);
                            if is_anc(c as int, k) {
                                lemma_anc_ge(c as int, k);
                            } else {
                                lemma_anc_parent_ge(k, c as int);
                            }
                        }
                    }
                }
            }
            c = p;
        }
        self.losers.set(0, cur);
    }
}

} // verus!
