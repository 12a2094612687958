//! Concurrent ordered index: a skip list over byte-string keys.
//!
//! The list owns a head sentinel whose synthetic key orders below every real
//! key, and a pool of nodes referenced by stable indices (index 0 is the
//! head; index 0 in a forward slot means "no successor").  At level 0 the
//! chain from the head visits every inserted key in strictly increasing
//! order; higher levels are sparse express lanes over it.  Heights are drawn
//! from the deterministic random generator with branching factor 4.
//!
//! Duplicate policy: inserting a key that is already present leaves the list
//! unchanged (the index behaves as a set of keys).
//!
//! A single writer serializes `insert`; readers only follow forward links,
//! which the writer publishes only after the new node is fully built.

use vstd::prelude::*;
use crate::random::Random;
use crate::slice::{compare_bytes, lex_lt, lemma_lex_total, lemma_lex_trans};
use core::cmp::Ordering;

verus! {

/// Tallest tower a node can have.
pub const MAX_HEIGHT: usize = 8;

/// Branching factor: each extra level is kept with probability 1/4.
pub const BRANCHING: u32 = 4;

/// A key that orders below every real key, or a real key: the head sentinel
/// holds the minimum.
pub enum K<T> {
    Minimum,
    Key(T),
}

/// The sentinel ordering over integer keys: `Minimum` is below every key,
/// keys order as integers.
pub open spec fn k_lt(a: K<i32>, b: K<i32>) -> bool {
    match (a, b) {
        (K::Minimum, K::Minimum) => false,
        (K::Minimum, K::Key(_)) => true,
        (K::Key(_), K::Minimum) => false,
        (K::Key(x), K::Key(y)) => x < y,
    }
}

impl K<i32> {
    /// Three-way comparison under the sentinel ordering.
    pub fn cmp(&self, other: &K<i32>) -> (r: Ordering)
        ensures
            r == Ordering::Less <==> k_lt(*self, *other),
            r == Ordering::Greater <==> k_lt(*other, *self),
            r == Ordering::Equal <==> *self == *other,
    {
        match (self, other) {
            (K::Minimum, K::Minimum) => Ordering::Equal,
            (K::Minimum, K::Key(_)) => Ordering::Less,
            (K::Key(_), K::Minimum) => Ordering::Greater,
            (K::Key(x), K::Key(y)) => {
                if *x < *y {
                    Ordering::Less
                } else if *y < *x {
                    Ordering::Greater
                } else {
                    Ordering::Equal
                }
            },
        }
    }
}

/// One tower of the list: an immutable key and one forward slot per level up
/// to the node's height (0 meaning "no successor at this level").
pub struct Node {
    key: Vec<u8>,
    nexts: Vec<usize>,
}

pub struct SkipList {
    /// Node pool; `nodes[0]` is the head sentinel.
    nodes: Vec<Node>,
    /// Level count currently in use; grows, never shrinks.
    max_height: usize,
    /// Height selection randomness, owned by this list.
    rng: Random,
    /// The node indices of all real nodes, in strictly increasing key order:
    /// the level-0 chain.
    order: Ghost<Seq<int>>,
}

impl SkipList {
    pub closed spec fn key_of(self, i: int) -> Seq<u8> {
        self.nodes@[i].key@
    }

    pub closed spec fn height_of(self, i: int) -> int {
        self.nodes@[i].nexts@.len() as int
    }

    pub closed spec fn link(self, i: int, l: int) -> int {
        self.nodes@[i].nexts@[l] as int
    }

    pub closed spec fn num_nodes(self) -> int {
        self.nodes@.len() as int
    }

    /// All inserted keys, in increasing order.
    pub closed spec fn key_seq(self) -> Seq<Seq<u8>> {
        Seq::new(self.order@.len(), |p: int| self.key_of(self.order@[p]))
    }

    /// Whether `k` has been inserted.
    pub open spec fn contains_key(self, k: Seq<u8>) -> bool {
        exists|p: int| 0 <= p < self.key_seq().len() && self.key_seq()[p] == k
    }

    /// `p` is the position of the smallest key that is `>= k`.
    pub open spec fn is_first_ge(self, k: Seq<u8>, p: int) -> bool {
        &&& 0 <= p < self.key_seq().len()
        &&& !lex_lt(self.key_seq()[p], k)
        &&& forall|q: int| 0 <= q < p ==> lex_lt(#[trigger] self.key_seq()[q], k)
    }

    /// `p` is the position of the largest key that is `< k`.
    pub open spec fn is_last_lt(self, k: Seq<u8>, p: int) -> bool {
        &&& 0 <= p < self.key_seq().len()
        &&& lex_lt(self.key_seq()[p], k)
        &&& forall|q: int|
            p < q < self.key_seq().len() ==> !lex_lt(#[trigger] self.key_seq()[q], k)
    }

    /// Forward slot `l` of node `i` either holds no successor or a valid,
    /// tall-enough node of strictly larger key (the head counts as smaller
    /// than everything).
    spec fn link_ok(self, i: int, l: int) -> bool {
        let j = self.link(i, l);
        ||| j == 0
        ||| {
            &&& 1 <= j < self.num_nodes()
            &&& l < self.height_of(j)
            &&& (i == 0 || lex_lt(self.key_of(i), self.key_of(j)))
        }
    }

    /// The structure's invariant: `order` lists every real node in strictly
    /// increasing key order and matches the level-0 chain; every forward link
    /// respects the key order; head slots at unused heights are empty.
    pub closed spec fn wf(self) -> bool {
        &&& 1 <= self.nodes@.len()
        &&& self.height_of(0) == MAX_HEIGHT
        &&& 1 <= self.max_height <= MAX_HEIGHT
        &&& self.order@.len() == self.nodes@.len() - 1
        &&& forall|p: int|
            0 <= p < self.order@.len() ==> 1 <= #[trigger] self.order@[p] < self.nodes@.len()
        &&& forall|j: int| 1 <= j < self.nodes@.len() ==> #[trigger] self.order@.contains(j)
        &&& forall|p: int, q: int|
            0 <= p < q < self.order@.len() ==> lex_lt(
                self.key_of(#[trigger] self.order@[p]),
                self.key_of(#[trigger] self.order@[q]),
            )
        &&& forall|i: int|
            1 <= i < self.nodes@.len() ==> 1 <= #[trigger] self.height_of(i) <= self.max_height
        &&& forall|i: int, l: int|
            0 <= i < self.nodes@.len() && 0 <= l < self.height_of(i) ==> #[trigger] self.link_ok(
                i,
                l,
            )
        &&& forall|l: int| self.max_height <= l < MAX_HEIGHT ==> #[trigger] self.link(0, l) == 0
        &&& self.link(0, 0) == (if self.order@.len() == 0 {
            0int
        } else {
            self.order@[0]
        })
        &&& forall|p: int|
            0 <= p < self.order@.len() - 1 ==> #[trigger] self.link(self.order@[p], 0)
                == self.order@[p + 1]
        &&& self.order@.len() > 0 ==> self.link(self.order@[self.order@.len() - 1], 0) == 0
    }

    /// An empty index.
    pub fn new() -> (r: SkipList)
        ensures
            r.wf(),
            r.key_seq() == Seq::<Seq<u8>>::empty(),
    {
        let head = Node { key: Vec::new(), nexts: vec![0usize; MAX_HEIGHT] };
        let mut nodes: Vec<Node> = Vec::new();
        nodes.push(head);
        let r = SkipList {
            nodes,
            max_height: 1,
            rng: Random::new(0xdeadbeef),
            order: Ghost(Seq::empty()),
        };
        proof {
            assert(r.key_seq() =~= Seq::<Seq<u8>>::empty());
        }
        r
    }

    /// Number of keys in the index.
    pub fn len(&self) -> (r: usize)
        requires
            self.wf(),
        ensures
            r == self.key_seq().len(),
    {
        self.nodes.len() - 1
    }

    /// From a node `x` at position `px` (-1 for the head), a non-empty
    /// forward link leads to a node strictly later in the order.
    proof fn lemma_position_advance(self, x: int, px: int, l: int)
        requires
            self.wf(),
            (x == 0 && px == -1) || (0 <= px < self.order@.len() && self.order@[px] == x),
            0 <= x < self.num_nodes(),
            0 <= l < self.height_of(x),
            self.link(x, l) != 0,
        ensures
            1 <= self.link(x, l) < self.num_nodes(),
            l < self.height_of(self.link(x, l)),
            x == 0 || lex_lt(self.key_of(x), self.key_of(self.link(x, l))),
            exists|q: int|
                px < q < self.order@.len() && #[trigger] self.order@[q] == self.link(x, l),
    {
        let y = self.link(x, l);
        assert(self.link_ok(x, l));
        assert(self.order@.contains(y));
        let q = choose|q: int| 0 <= q < self.order@.len() && self.order@[q] == y;
        if x != 0 {
            lemma_lex_total(self.key_of(x), self.key_of(y));
            if q == px {
                assert(false);
            }
            if q < px {
                assert(lex_lt(self.key_of(self.order@[q]), self.key_of(self.order@[px])));
                assert(false);
            }
        }
        assert(px < q < self.order@.len() && self.order@[q] == y);
    }

    /// The single downward sweep: returns the last node below `key`, the
    /// first node at or above it (0 for "none"), and the count of keys below
    /// `key`.
    fn search_position(&self, key: &Vec<u8>) -> (r: (usize, usize, Ghost<int>))
        requires
            self.wf(),
        ensures
            ({
                let lt_node = r.0;
                let ge_node = r.1;
                let p = r.2@;
                &&& 0 <= p <= self.key_seq().len()
                &&& forall|q: int| 0 <= q < p ==> lex_lt(#[trigger] self.key_seq()[q], key@)
                &&& forall|q: int|
                    p <= q < self.key_seq().len() ==> !lex_lt(#[trigger] self.key_seq()[q], key@)
                &&& ge_node as int == (if p == self.key_seq().len() {
                    0int
                } else {
                    self.order@[p]
                })
                &&& lt_node as int == (if p == 0 {
                    0int
                } else {
                    self.order@[p - 1]
                })
            }),
    {
        let mut x: usize = 0;
        let ghost mut px: int = -1int;
        let mut level: usize = self.max_height - 1;
        loop
            invariant
                self.wf(),
                level < self.max_height,
                x < self.nodes.len(),
                (level as int) < self.height_of(x as int),
                (x == 0 && px == -1) || (0 <= px < self.order@.len() && self.order@[px]
                    == x as int && lex_lt(self.key_of(x as int), key@)),
            decreases self.order@.len() - px, level,
        {
            let y = self.nodes[x].nexts[level];
            let mut advance = false;
            if y != 0 {
                proof {
                    self.lemma_position_advance(x as int, px, level as int);
                }
                let c = compare_bytes(&self.nodes[y].key, key);
                advance = matches!(c, Ordering::Less);
            }
            if advance {
                proof {
                    px = choose|q: int|
                        px < q < self.order@.len() && #[trigger] self.order@[q] == y as int;
                }
                x = y;
            } else {
                if level == 0 {
                    proof {
                        self.lemma_search_exit(x as int, px, y as int, key@);
                    }
                    return (x, y, Ghost(px + 1));
                }
                level = level - 1;
            }
        }
    }

    /// What holds when the sweep stops at level 0: `px + 1` splits the order
    /// into keys below `key` and keys at or above it.
    proof fn lemma_search_exit(self, x: int, px: int, y: int, k: Seq<u8>)
        requires
            self.wf(),
            (x == 0 && px == -1) || (0 <= px < self.order@.len() && self.order@[px] == x
                && lex_lt(self.key_of(x), k)),
            0 <= x < self.num_nodes(),
            0 < self.height_of(x),
            y == self.link(x, 0),
            y != 0 ==> !lex_lt(self.key_of(y), k),
        ensures
            0 <= px + 1 <= self.key_seq().len(),
            forall|q: int| 0 <= q < px + 1 ==> lex_lt(#[trigger] self.key_seq()[q], k),
            forall|q: int|
                px + 1 <= q < self.key_seq().len() ==> !lex_lt(#[trigger] self.key_seq()[q], k),
            y == (if px + 1 == self.key_seq().len() {
                0int
            } else {
                self.order@[px + 1]
            }),
            x == (if px + 1 == 0 {
                0int
            } else {
                self.order@[px]
            }),
    {
        let len = self.order@.len() as int;
        // The link out of x names the next position, or ends the chain.
        if x == 0 {
            assert(y == (if len == 0 { 0int } else { self.order@[0] }));
        } else {
            if px < len - 1 {
                assert(self.link(self.order@[px], 0) == self.order@[px + 1]);
            } else {
                assert(self.link(self.order@[len - 1], 0) == 0);
            }
        }
        if y != 0 {
            assert(0 <= px + 1 < len && self.order@[px + 1] == y);
        } else {
            assert(px + 1 == len);
        }
        // Keys before the split are below k.
        assert forall|q: int| 0 <= q < px + 1 implies lex_lt(#[trigger] self.key_seq()[q], k) by {
            assert(self.key_seq()[q] == self.key_of(self.order@[q]));
            if q < px {
                assert(lex_lt(self.key_of(self.order@[q]), self.key_of(self.order@[px])));
                lemma_lex_trans(self.key_of(self.order@[q]), self.key_of(self.order@[px]), k);
            }
        }
        // Keys from the split on are not below k.
        assert forall|q: int| px + 1 <= q < len implies !lex_lt(#[trigger] self.key_seq()[q], k) by {
            assert(self.key_seq()[q] == self.key_of(self.order@[q]));
            assert(!lex_lt(self.key_of(y), k));
            if q > px + 1 {
                assert(lex_lt(self.key_of(self.order@[px + 1]), self.key_of(self.order@[q])));
                if lex_lt(self.key_of(self.order@[q]), k) {
                    lemma_lex_trans(
                        self.key_of(self.order@[px + 1]),
                        self.key_of(self.order@[q]),
                        k,
                    );
                    assert(false);
                }
            }
        }
    }

    /// The smallest inserted key that is `>= key`, or `None` when every
    /// inserted key is below `key`.
    pub fn find_greater_or_equal(&self, key: &Vec<u8>) -> (r: Option<Vec<u8>>)
        requires
            self.wf(),
        ensures
            match r {
                Some(v) => exists|p: int|
                    #[trigger] self.is_first_ge(key@, p) && self.key_seq()[p] == v@,
                None => forall|q: int|
                    0 <= q < self.key_seq().len() ==> lex_lt(#[trigger] self.key_seq()[q], key@),
            },
    {
        let (_x, y, p) = self.search_position(key);
        if y == 0 {
            proof {
                if (p@) < self.key_seq().len() {
                    assert(1 <= self.order@[p@]);
                    assert(false);
                }
            }
            None
        } else {
            proof {
                assert(self.is_first_ge(key@, p@));
            }
            Some(self.nodes[y].key.clone())
        }
    }

    /// The largest inserted key that is `< key`, or `None` when every
    /// inserted key is at or above `key`.
    pub fn find_less_than(&self, key: &Vec<u8>) -> (r: Option<Vec<u8>>)
        requires
            self.wf(),
        ensures
            match r {
                Some(v) => exists|p: int|
                    #[trigger] self.is_last_lt(key@, p) && self.key_seq()[p] == v@,
                None => forall|q: int|
                    0 <= q < self.key_seq().len() ==> !lex_lt(#[trigger] self.key_seq()[q], key@),
            },
    {
        let (x, _y, p) = self.search_position(key);
        if x == 0 {
            proof {
                if (p@) != 0 {
                    assert(lex_lt(self.key_seq()[p@ - 1], key@));
                    assert(1 <= self.order@[p@ - 1]);
                    assert(false);
                }
            }
            None
        } else {
            proof {
                assert(self.is_last_lt(key@, p@ - 1));
            }
            Some(self.nodes[x].key.clone())
        }
    }

    /// Whether `key` has been inserted.
    pub fn contains(&self, key: &Vec<u8>) -> (r: bool)
        requires
            self.wf(),
        ensures
            r == self.contains_key(key@),
    {
        let (_x, y, p) = self.search_position(key);
        if y == 0 {
            proof {
                if self.contains_key(key@) {
                    let q = choose|q: int|
                        0 <= q < self.key_seq().len() && #[trigger] self.key_seq()[q] == key@;
                    lemma_lex_total(self.key_seq()[q], key@);
                    assert(false);
                }
                if (p@) < self.key_seq().len() {
                    assert(1 <= self.order@[p@]);
                    assert(false);
                }
            }
            false
        } else {
            let c = compare_bytes(&self.nodes[y].key, key);
            let eq = matches!(c, Ordering::Equal);
            proof {
                assert(self.key_seq()[p@] == self.key_of(y as int));
                if eq {
                    assert(self.contains_key(key@));
                } else {
                    if self.contains_key(key@) {
                        let q = choose|q: int|
                            0 <= q < self.key_seq().len() && #[trigger] self.key_seq()[q] == key@;
                        lemma_lex_total(self.key_seq()[q], key@);
                        // q is neither below the split, nor the split
                        // (the keys differ), nor above it.
                        if q > p@ {
                            assert(lex_lt(self.key_seq()[p@], self.key_seq()[q]));
                            lemma_lex_total(self.key_seq()[p@], key@);
                            assert(false);
                        }
                        assert(false);
                    }
                }
            }
            eq
        }
    }

    /// All keys, in increasing order: the level-0 traversal.
    pub fn keys_in_order(&self) -> (r: Vec<Vec<u8>>)
        requires
            self.wf(),
        ensures
            r@.len() == self.key_seq().len(),
            forall|p: int| 0 <= p < r@.len() ==> #[trigger] r@[p]@ == self.key_seq()[p],
    {
        let mut out: Vec<Vec<u8>> = Vec::new();
        let mut x: usize = self.nodes[0].nexts[0];
        let ghost mut px: int = 0int;
        proof {
            if x != 0 {
                assert(self.order@[0] == x as int);
            } else {
                assert(self.order@.len() == 0);
            }
        }
        while x != 0
            invariant
                self.wf(),
                0 <= px <= self.order@.len(),
                out@.len() == px,
                forall|p: int| 0 <= p < px ==> #[trigger] out@[p]@ == self.key_seq()[p],
                x as int == (if px == self.order@.len() {
                    0int
                } else {
                    self.order@[px]
                }),
                x < self.nodes.len(),
            decreases self.order@.len() - px,
        {
            proof {
                assert(1 <= self.order@[px]);
            }
            out.push(self.nodes[x].key.clone());
            proof {
                assert(1 <= self.height_of(x as int));
            }
            let nxt = self.nodes[x].nexts[0];
            proof {
                assert(self.key_seq()[px] == self.key_of(self.order@[px]));
                if px < self.order@.len() - 1 {
                    assert(self.link(self.order@[px], 0) == self.order@[px + 1]);
                    assert(1 <= self.order@[px + 1]);
                } else {
                    assert(self.link(self.order@[self.order@.len() - 1], 0) == 0);
                }
                px = px + 1;
            }
            x = nxt;
        }
        out
    }

    /// Everything the insertion of `k` needs to know about the pre-state
    /// `m`: the per-level predecessors `prevs`, the split position `px`
    /// (position of the last key below `k`, -1 if none), and that `k` is not
    /// yet present.
    spec fn ready(m: SkipList, prevs: Seq<usize>, px: int, k: Seq<u8>, h: int) -> bool {
        &&& m.wf()
        &&& prevs.len() == MAX_HEIGHT
        &&& 1 <= h <= m.max_height
        &&& -1 <= px < m.order@.len()
        &&& forall|q: int| 0 <= q <= px ==> lex_lt(m.key_of(#[trigger] m.order@[q]), k)
        &&& forall|q: int|
            px < q < m.order@.len() ==> !lex_lt(m.key_of(#[trigger] m.order@[q]), k) && m.key_of(
                m.order@[q],
            ) != k
        &&& forall|l: int| 0 <= l < h ==> m.prev_ok(#[trigger] prevs[l] as int, l, k)
        &&& prevs[0] as int == (if px == -1 {
            0int
        } else {
            m.order@[px]
        })
    }

    /// A recorded predecessor for level `l`: a node below `k` (or the head)
    /// tall enough to hold the level, whose successor at the level is not
    /// below `k`.
    spec fn prev_ok(self, pv: int, l: int, k: Seq<u8>) -> bool {
        &&& 0 <= pv < self.num_nodes()
        &&& l < self.height_of(pv)
        &&& pv == 0 || lex_lt(self.key_of(pv), k)
        &&& self.link(pv, l) == 0 || !lex_lt(self.key_of(self.link(pv, l)), k)
    }

    /// Draws the height of a new node: starts at 1, grows while a 1-in-4
    /// coin keeps landing, capped at `MAX_HEIGHT`.
    fn random_height(rng: &mut Random) -> (h: usize)
        ensures
            1 <= h <= MAX_HEIGHT,
    {
        let mut h: usize = 1;
        while h < MAX_HEIGHT
            invariant
                1 <= h <= MAX_HEIGHT,
            decreases MAX_HEIGHT - h,
        {
            if rng.one_in(BRANCHING) {
                h = h + 1;
            } else {
                break;
            }
        }
        h
    }

    /// Copies, for each level below `h`, the successor of that level's
    /// predecessor: the forward slots the new node starts with.
    fn copy_links(&self, prev: &Vec<usize>, h: usize) -> (nexts: Vec<usize>)
        requires
            self.wf(),
            prev.len() == MAX_HEIGHT,
            h <= MAX_HEIGHT,
            forall|l: int|
                0 <= l < h ==> (#[trigger] prev@[l] as int) < self.num_nodes() && l
                    < self.height_of(prev@[l] as int),
        ensures
            nexts@.len() == h,
            forall|l: int|
                0 <= l < h ==> (#[trigger] nexts@[l] as int) == self.link(prev@[l] as int, l),
    {
        let mut nexts: Vec<usize> = Vec::new();
        let mut l: usize = 0;
        while l < h
            invariant
                self.wf(),
                prev.len() == MAX_HEIGHT,
                h <= MAX_HEIGHT,
                forall|j: int|
                    0 <= j < h ==> (#[trigger] prev@[j] as int) < self.num_nodes() && j
                        < self.height_of(prev@[j] as int),
                0 <= l <= h,
                nexts@.len() == l,
                forall|j: int|
                    0 <= j < l ==> (#[trigger] nexts@[j] as int) == self.link(prev@[j] as int, j),
            decreases h - l,
        {
            let pl = prev[l];
            nexts.push(self.nodes[pl].nexts[l]);
            l = l + 1;
        }
        nexts
    }

    /// Linking the new node `n` into every level below its height `h`
    /// preserves the invariant, and inserts `k` at the split position of the
    /// key sequence.
    #[verifier::rlimit(60)]
    proof fn lemma_insert_wf(m: SkipList, f: SkipList, prevs: Seq<usize>, px: int, k: Seq<u8>, h: int)
        requires
            Self::ready(m, prevs, px, k, h),
            f.nodes@.len() == m.nodes@.len() + 1,
            f.max_height == m.max_height,
            f.order@ == m.order@.insert(px + 1, m.nodes@.len() as int),
            forall|i: int| 0 <= i < m.nodes@.len() ==> #[trigger] f.key_of(i) == m.key_of(i),
            forall|i: int|
                0 <= i < m.nodes@.len() ==> #[trigger] f.height_of(i) == m.height_of(i),
            f.key_of(m.nodes@.len() as int) == k,
            f.height_of(m.nodes@.len() as int) == h,
            forall|i: int, lev: int|
                0 <= i < m.nodes@.len() && 0 <= lev < f.height_of(i) ==> #[trigger] f.link(i, lev)
                    == (if lev < h && prevs[lev] as int == i {
                    m.nodes@.len() as int
                } else {
                    m.link(i, lev)
                }),
            forall|lev: int|
                0 <= lev < h ==> #[trigger] f.link(m.nodes@.len() as int, lev) == m.link(
                    prevs[lev] as int,
                    lev,
                ),
        ensures
            f.wf(),
            f.key_seq() == m.key_seq().insert(px + 1, k),
    {
        let n = m.nodes@.len() as int;
        let o = m.order@;
        let o2 = f.order@;
        let pos = px + 1;
        o.insert_ensures(pos, n);
        assert(o2.len() == o.len() + 1);
        // Keys at or after the split are strictly above k.
        assert forall|q: int| px < q < o.len() implies lex_lt(k, m.key_of(#[trigger] o[q])) by {
            lemma_lex_total(m.key_of(o[q]), k);
        }
        // Order entries around the split.
        assert forall|p: int| 0 <= p < o2.len() implies {
            &&& 1 <= #[trigger] o2[p] < f.nodes@.len()
            &&& o2[p] == (if p < pos {
                o[p]
            } else if p == pos {
                n
            } else {
                o[p - 1]
            })
        } by {
            if p < pos {
                assert(o2[p] == o[p]);
            } else if p > pos {
                assert(o2[p] == o[p - 1]);
            }
        }
        // Sortedness of the new order.
        assert forall|p: int, q: int| 0 <= p < q < o2.len() implies lex_lt(
            f.key_of(#[trigger] o2[p]),
            f.key_of(#[trigger] o2[q]),
        ) by {
            let kp = f.key_of(o2[p]);
            let kq = f.key_of(o2[q]);
            if p < pos && q < pos {
                assert(kp == m.key_of(o[p]) && kq == m.key_of(o[q]));
            } else if p < pos && q == pos {
                assert(kp == m.key_of(o[p]) && kq == k);
            } else if p < pos && q > pos {
                assert(kp == m.key_of(o[p]) && kq == m.key_of(o[q - 1]));
            } else if p == pos {
                assert(kp == k && kq == m.key_of(o[q - 1]));
            } else {
                assert(kp == m.key_of(o[p - 1]) && kq == m.key_of(o[q - 1]));
            }
        }
        // Every real node is listed.
        assert forall|j: int| 1 <= j < f.nodes@.len() implies #[trigger] o2.contains(j) by {
            if j == n {
                assert(o2[pos] == j);
            } else {
                assert(o.contains(j));
                let q = choose|q: int| 0 <= q < o.len() && o[q] == j;
                if q < pos {
                    assert(o2[q] == j);
                } else {
                    assert(o2[q + 1] == j);
                }
            }
        }
        // Every forward link is in order.
        assert forall|i: int, l: int| 0 <= i < f.nodes@.len() && 0 <= l < f.height_of(i)
            implies #[trigger] f.link_ok(i, l) by {
            if i == n {
                let z = m.link(prevs[l] as int, l);
                assert(m.prev_ok(prevs[l] as int, l, k));
                assert(m.link_ok(prevs[l] as int, l));
                assert(f.link(i, l) == z);
                if z != 0 {
                    assert(o.contains(z));
                    let q = choose|q: int| 0 <= q < o.len() && o[q] == z;
                    assert(!lex_lt(m.key_of(z), k));
                    assert(q > px);
                    assert(lex_lt(k, m.key_of(z)));
                }
            } else if l < h && prevs[l] as int == i {
                assert(f.link(i, l) == n);
                assert(m.prev_ok(prevs[l] as int, l, k));
            } else {
                assert(f.link(i, l) == m.link(i, l));
                assert(m.link_ok(i, l));
            }
        }
        // Unused head levels stay empty.
        assert forall|l: int| f.max_height <= l < MAX_HEIGHT implies #[trigger] f.link(0, l)
            == 0 by {
            assert(m.link(0, l) == 0);
            assert(f.link(0, l) == m.link(0, l));
        }
        // The level-0 chain matches the new order.
        assert(f.link(0, 0) == (if o2.len() == 0 {
            0int
        } else {
            o2[0]
        })) by {
            if pos == 0 {
                assert(prevs[0] as int == 0);
                assert(f.link(0, 0) == n);
            } else {
                assert(prevs[0] as int == o[px]);
                assert(1 <= o[px]);
                assert(f.link(0, 0) == m.link(0, 0));
            }
        }
        assert forall|p: int| 0 <= p < o2.len() - 1 implies #[trigger] f.link(o2[p], 0) == o2[p
            + 1] by {
            Self::lemma_order_distinct(m, px);
            if p < pos - 1 {
                assert(o2[p] == o[p] && o2[p + 1] == o[p + 1]);
                assert(o[p] != prevs[0] as int);
                assert(f.link(o2[p], 0) == m.link(o[p], 0));
                assert(m.link(o[p], 0) == o[p + 1]);
            } else if p == pos - 1 {
                assert(o2[p] == o[p] && o[p] == prevs[0] as int);
                assert(f.link(o2[p], 0) == n);
                assert(o2[p + 1] == n);
            } else if p == pos {
                assert(o2[p] == n);
                assert(f.link(n, 0) == m.link(prevs[0] as int, 0));
                if px == -1 {
                    assert(m.link(0, 0) == o[0]);
                    assert(o2[p + 1] == o[0]);
                } else {
                    assert(m.link(o[px], 0) == o[px + 1]);
                    assert(o2[p + 1] == o[px + 1]);
                }
            } else {
                assert(o2[p] == o[p - 1] && o2[p + 1] == o[p]);
                assert(o[p - 1] != prevs[0] as int);
                assert(f.link(o2[p], 0) == m.link(o[p - 1], 0));
                assert(m.link(o[p - 1], 0) == o[p]);
            }
        }
        assert(o2.len() > 0);
        assert(f.link(o2[o2.len() - 1], 0) == 0) by {
            Self::lemma_order_distinct(m, px);
            if pos == o2.len() - 1 {
                assert(o2[pos] == n);
                assert(f.link(n, 0) == m.link(prevs[0] as int, 0));
                if px == -1 {
                    assert(o.len() == 0);
                    assert(m.link(0, 0) == 0);
                } else {
                    assert(px == o.len() - 1);
                    assert(m.link(o[px], 0) == 0);
                }
            } else {
                assert(o2[o2.len() - 1] == o[o.len() - 1]);
                assert(o[o.len() - 1] != prevs[0] as int);
                assert(f.link(o2[o2.len() - 1], 0) == m.link(o[o.len() - 1], 0));
            }
        }
        // Heights stay within bounds.
        assert forall|i: int| 1 <= i < f.nodes@.len() implies 1 <= #[trigger] f.height_of(i)
            <= f.max_height by {
            if i < n {
                assert(1 <= m.height_of(i) <= m.max_height);
            }
        }
        assert(f.wf());
        // The key sequence is the old one with k at the split.
        m.key_seq().insert_ensures(pos, k);
        assert forall|p: int| 0 <= p < o2.len() implies #[trigger] f.key_seq()[p] == m.key_seq().insert(
            pos,
            k,
        )[p] by {
            assert(f.key_seq()[p] == f.key_of(o2[p]));
            if p < pos {
                assert(m.key_seq()[p] == m.key_of(o[p]));
            } else if p > pos {
                assert(m.key_seq()[p - 1] == m.key_of(o[p - 1]));
            }
        }
        assert(f.key_seq() =~= m.key_seq().insert(pos, k));
    }

    /// Distinct positions of the order hold distinct nodes, and only
    /// position `px` holds `prevs[0]`.
    proof fn lemma_order_distinct(m: SkipList, px: int)
        requires
            m.wf(),
            -1 <= px < m.order@.len(),
        ensures
            forall|p: int, q: int|
                0 <= p < q < m.order@.len() ==> #[trigger] m.order@[p] != #[trigger] m.order@[q],
    {
        assert forall|p: int, q: int| 0 <= p < q < m.order@.len() implies #[trigger] m.order@[p]
            != #[trigger] m.order@[q] by {
            assert(lex_lt(m.key_of(m.order@[p]), m.key_of(m.order@[q])));
            lemma_lex_total(m.key_of(m.order@[p]), m.key_of(m.order@[q]));
        }
    }

    /// Two lists with the same nodes and order are equally well formed, as
    /// long as the second's height bound is no smaller: the invariant never
    /// reads the randomness state.
    proof fn lemma_wf_same_nodes(a: SkipList, b: SkipList)
        requires
            a.wf(),
            b.nodes@ == a.nodes@,
            b.order@ == a.order@,
            a.max_height <= b.max_height <= MAX_HEIGHT,
        ensures
            b.wf(),
            b.key_seq() == a.key_seq(),
    {
        assert forall|p: int| 0 <= p < b.order@.len() implies 1 <= #[trigger] b.order@[p]
            < b.nodes@.len() by {
            assert(1 <= a.order@[p] < a.nodes@.len());
        }
        assert forall|j: int| 1 <= j < b.nodes@.len() implies #[trigger] b.order@.contains(j) by {
            assert(a.order@.contains(j));
        }
        assert forall|p: int, q: int| 0 <= p < q < b.order@.len() implies lex_lt(
            b.key_of(#[trigger] b.order@[p]),
            b.key_of(#[trigger] b.order@[q]),
        ) by {
            assert(lex_lt(a.key_of(a.order@[p]), a.key_of(a.order@[q])));
        }
        assert forall|i: int| 1 <= i < b.nodes@.len() implies 1 <= #[trigger] b.height_of(i)
            <= b.max_height by {
            assert(1 <= a.height_of(i) <= a.max_height);
        }
        assert forall|i: int, l: int| 0 <= i < b.nodes@.len() && 0 <= l < b.height_of(i)
            implies #[trigger] b.link_ok(i, l) by {
            assert(a.link_ok(i, l));
        }
        assert forall|l: int| b.max_height <= l < MAX_HEIGHT implies #[trigger] b.link(0, l)
            == 0 by {
            assert(a.link(0, l) == 0);
        }
        assert forall|p: int| 0 <= p < b.order@.len() - 1 implies #[trigger] b.link(b.order@[p], 0)
            == b.order@[p + 1] by {
            assert(a.link(a.order@[p], 0) == a.order@[p + 1]);
        }
        if b.order@.len() > 0 {
            assert(a.link(a.order@[a.order@.len() - 1], 0) == 0);
        }
        assert(b.key_seq() =~= a.key_seq());
    }

    /// Inserts `key`.  A key that is already present leaves the index
    /// unchanged; otherwise the key joins the sorted sequence at its ordered
    /// position.
    pub fn insert(&mut self, key: Vec<u8>)
        requires
            old(self).wf(),
            old(self).key_seq().len() + 1 < usize::MAX,
        ensures
            final(self).wf(),
            forall|k2: Seq<u8>|
                final(self).contains_key(k2) <==> (old(self).contains_key(k2) || k2 == key@),
            old(self).contains_key(key@) ==> final(self).key_seq() == old(self).key_seq(),
            !old(self).contains_key(key@) ==> exists|p: int|
                0 <= p <= old(self).key_seq().len() && final(self).key_seq() == old(
                    self,
                ).key_seq().insert(p, key@),
    {
        let ghost k = key@;
        let mut prev: Vec<usize> = vec![0usize; MAX_HEIGHT];
        let mut x: usize = 0;
        let ghost mut px: int = -1int;
        let mut level: usize = self.max_height - 1;
        // Downward sweep, recording the last node visited at each level.
        loop
            invariant_except_break
                k == key@,
                *self == *old(self),
                self.wf(),
                prev.len() == MAX_HEIGHT,
                level < self.max_height,
                x < self.nodes.len(),
                (level as int) < self.height_of(x as int),
                (x == 0 && px == -1) || (0 <= px < self.order@.len() && self.order@[px]
                    == x as int && lex_lt(self.key_of(x as int), k)),
                forall|l: int|
                    level < l < self.max_height ==> self.prev_ok(#[trigger] prev@[l] as int, l, k),
                forall|l: int| self.max_height <= l < MAX_HEIGHT ==> prev@[l] == 0,
            ensures
                k == key@,
                *self == *old(self),
                self.wf(),
                prev.len() == MAX_HEIGHT,
                x < self.nodes.len(),
                0 < self.height_of(x as int),
                (x == 0 && px == -1) || (0 <= px < self.order@.len() && self.order@[px]
                    == x as int && lex_lt(self.key_of(x as int), k)),
                forall|l: int|
                    0 <= l < self.max_height ==> self.prev_ok(#[trigger] prev@[l] as int, l, k),
                forall|l: int| self.max_height <= l < MAX_HEIGHT ==> prev@[l] == 0,
                prev@[0] == x,
            decreases self.order@.len() - px, level,
        {
            let y = self.nodes[x].nexts[level];
            let mut advance = false;
            if y != 0 {
                proof {
                    self.lemma_position_advance(x as int, px, level as int);
                }
                let c = compare_bytes(&self.nodes[y].key, &key);
                advance = matches!(c, Ordering::Less);
            }
            if advance {
                proof {
                    px = choose|q: int|
                        px < q < self.order@.len() && #[trigger] self.order@[q] == y as int;
                }
                x = y;
            } else {
                prev[level] = x;
                if level == 0 {
                    break;
                }
                level = level - 1;
            }
        }
        // Duplicate check: the level-0 successor is the only candidate.
        let y0 = self.nodes[x].nexts[0];
        proof {
            assert(self.link_ok(x as int, 0));
        }
        if y0 != 0 {
            let c = compare_bytes(&self.nodes[y0].key, &key);
            if matches!(c, Ordering::Equal) {
                proof {
                    self.lemma_search_exit(x as int, px, y0 as int, k);
                    assert(self.key_seq()[px + 1] == self.key_of(y0 as int));
                    assert(self.contains_key(k));
                }
                return ;
            }
        }
        proof {
            self.lemma_search_exit(x as int, px, y0 as int, k);
            // k is not present: below the split all keys are below k, at and
            // above it they are at or above the successor's key, which
            // differs from k.
            assert forall|q: int| px < q < self.order@.len() implies !lex_lt(
                self.key_of(#[trigger] self.order@[q]),
                k,
            ) && self.key_of(self.order@[q]) != k by {
                assert(self.key_seq()[q] == self.key_of(self.order@[q]));
                if q == px + 1 {
                    assert(self.order@[q] == y0 as int);
                    assert(self.key_of(y0 as int) != k);
                } else {
                    assert(lex_lt(
                        self.key_of(self.order@[px + 1]),
                        self.key_of(self.order@[q]),
                    ));
                    assert(self.key_seq()[px + 1] == self.key_of(self.order@[px + 1]));
                    if self.key_of(self.order@[q]) == k {
                        assert(lex_lt(self.key_of(self.order@[px + 1]), k));
                        assert(false);
                    }
                }
            }
            assert(!self.contains_key(k)) by {
                if self.contains_key(k) {
                    let q = choose|q: int|
                        0 <= q < self.key_seq().len() && #[trigger] self.key_seq()[q] == k;
                    assert(self.key_seq()[q] == self.key_of(self.order@[q]));
                    if q <= px {
                        lemma_lex_total(k, k);
                    }
                    assert(false);
                }
            }
        }
        // Draw the height; grow the list's height first if needed.
        let h = Self::random_height(&mut self.rng);
        if h > self.max_height {
            self.max_height = h;
        }
        let ghost mid = *self;
        proof {
            // Only the randomness state and the height bound changed.
            Self::lemma_wf_same_nodes(*old(self), mid);
            assert forall|q: int| 0 <= q <= px implies lex_lt(
                mid.key_of(#[trigger] mid.order@[q]),
                k,
            ) by {
                assert(mid.key_seq()[q] == mid.key_of(mid.order@[q]));
                assert(old(self).key_seq()[q] == mid.key_seq()[q]);
            }
            assert forall|q: int| px < q < mid.order@.len() implies !lex_lt(
                mid.key_of(#[trigger] mid.order@[q]),
                k,
            ) && mid.key_of(mid.order@[q]) != k by {
                assert(mid.key_seq()[q] == mid.key_of(mid.order@[q]));
                assert(old(self).key_seq()[q] == mid.key_seq()[q]);
                assert(!lex_lt(old(self).key_seq()[q], k));
                assert(old(self).key_of(old(self).order@[q]) != k);
                assert(mid.key_of(mid.order@[q]) == old(self).key_of(old(self).order@[q]));
            }
            assert forall|l: int| 0 <= l < h implies mid.prev_ok(
                #[trigger] prev@[l] as int,
                l,
                k,
            ) by {
                let pv = prev@[l] as int;
                if l < old(self).max_height {
                    assert(old(self).prev_ok(pv, l, k));
                    assert(mid.num_nodes() == old(self).num_nodes());
                    assert(mid.height_of(pv) == old(self).height_of(pv));
                    assert(mid.key_of(pv) == old(self).key_of(pv));
                    assert(mid.link(pv, l) == old(self).link(pv, l));
                    assert(mid.key_of(mid.link(pv, l)) == old(self).key_of(
                        old(self).link(pv, l),
                    ));
                } else {
                    assert(prev@[l] == 0);
                    assert(old(self).link(0, l) == 0);
                    assert(mid.link(0, l) == old(self).link(0, l));
                    assert(mid.height_of(0) == old(self).height_of(0));
                }
            }
            assert(prev@[0] as int == (if px == -1 {
                0int
            } else {
                mid.order@[px]
            }));
            assert(Self::ready(mid, prev@, px, k, h as int));
        }
        // Build the new node and publish it level by level: its own forward
        // slots are set before any predecessor points at it.
        let nexts = self.copy_links(&prev, h);
        let n = self.nodes.len();
        self.nodes.push(Node { key, nexts });
        proof {
            assert forall|i: int| 0 <= i < n implies #[trigger] self.nodes@[i] == mid.nodes@[i] by {}
            assert forall|i: int, lev: int| 0 <= i < n && 0 <= lev < self.height_of(i)
                implies #[trigger] self.link(i, lev) == mid.link(i, lev) by {
                assert(self.nodes@[i] == mid.nodes@[i]);
            }
            assert(self.key_of(n as int) == k);
            assert(self.height_of(n as int) == h);
            assert forall|lev: int| 0 <= lev < h implies #[trigger] self.link(n as int, lev)
                == mid.link(prev@[lev] as int, lev) by {}
        }
        let mut l: usize = 0;
        while l < h
            invariant
                Self::ready(mid, prev@, px, k, h as int),
                prev.len() == MAX_HEIGHT,
                0 <= l <= h,
                1 <= h <= MAX_HEIGHT,
                n == mid.nodes@.len(),
                self.nodes@.len() == mid.nodes@.len() + 1,
                self.max_height == mid.max_height,
                self.order@ == mid.order@,
                forall|i: int| 0 <= i < n ==> #[trigger] self.key_of(i) == mid.key_of(i),
                forall|i: int| 0 <= i < n ==> #[trigger] self.height_of(i) == mid.height_of(i),
                self.key_of(n as int) == k,
                self.height_of(n as int) == h,
                forall|i: int, lev: int|
                    0 <= i < n && 0 <= lev < self.height_of(i) ==> #[trigger] self.link(i, lev)
                        == (if lev < l && prev@[lev] as int == i {
                        n as int
                    } else {
                        mid.link(i, lev)
                    }),
                forall|lev: int|
                    0 <= lev < h ==> #[trigger] self.link(n as int, lev) == mid.link(
                        prev@[lev] as int,
                        lev,
                    ),
            decreases h - l,
        {
            let pl = prev[l];
            proof {
                assert(mid.prev_ok(pl as int, l as int, k));
                assert((pl as int) < n);
                assert(self.height_of(pl as int) == mid.height_of(pl as int));
                assert((l as int) < self.height_of(pl as int));
            }
            let ghost before = *self;
            self.nodes[pl].nexts[l] = n;
            proof {
                assert(self.nodes@.len() == before.nodes@.len());
                assert(forall|i: int|
                    0 <= i < self.nodes@.len() && i != pl ==> #[trigger] self.nodes@[i]
                        == before.nodes@[i]);
                assert(self.nodes@[pl as int].key@ == before.nodes@[pl as int].key@);
                assert(self.nodes@[pl as int].nexts@ == before.nodes@[pl as int].nexts@.update(
                    l as int,
                    n,
                ));
                assert forall|i: int| 0 <= i < n implies #[trigger] self.key_of(i) == mid.key_of(
                    i,
                ) by {
                    if i != pl {
                        assert(self.nodes@[i] == before.nodes@[i]);
                    }
                    assert(before.key_of(i) == mid.key_of(i));
                }
                assert forall|i: int| 0 <= i < n implies #[trigger] self.height_of(i)
                    == mid.height_of(i) by {
                    if i != pl {
                        assert(self.nodes@[i] == before.nodes@[i]);
                    }
                    assert(before.height_of(i) == mid.height_of(i));
                }
                assert forall|i: int, lev: int| 0 <= i < n && 0 <= lev < self.height_of(i)
                    implies #[trigger] self.link(i, lev) == (if lev < l + 1 && prev@[lev] as int
                    == i {
                    n as int
                } else {
                    mid.link(i, lev)
                }) by {
                    if i == pl {
                        if lev == l {
                        } else {
                            assert(self.link(i, lev) == before.link(i, lev));
                        }
                    } else {
                        assert(self.nodes@[i] == before.nodes@[i]);
                        assert(self.link(i, lev) == before.link(i, lev));
                    }
                }
                assert forall|lev: int| 0 <= lev < h implies #[trigger] self.link(n as int, lev)
                    == mid.link(prev@[lev] as int, lev) by {
                    assert(self.nodes@[n as int] == before.nodes@[n as int]);
                    assert(self.link(n as int, lev) == before.link(n as int, lev));
                }
            }
            l = l + 1;
        }
        let ghost fin0 = *self;
        proof {
            self.order@ = mid.order@.insert(px + 1, n as int);
            assert(self.nodes@ == fin0.nodes@);
            assert forall|i: int| 0 <= i < n implies #[trigger] self.key_of(i) == mid.key_of(
                i,
            ) by {
                assert(fin0.key_of(i) == mid.key_of(i));
            }
            assert forall|i: int| 0 <= i < n implies #[trigger] self.height_of(i)
                == mid.height_of(i) by {
                assert(fin0.height_of(i) == mid.height_of(i));
            }
            assert forall|i: int, lev: int| 0 <= i < n && 0 <= lev < self.height_of(i)
                implies #[trigger] self.link(i, lev) == (if lev < h && prev@[lev] as int == i {
                n as int
            } else {
                mid.link(i, lev)
            }) by {
                assert(self.height_of(i) == fin0.height_of(i));
                assert(self.link(i, lev) == fin0.link(i, lev));
            }
            assert forall|lev: int| 0 <= lev < h implies #[trigger] self.link(n as int, lev)
                == mid.link(prev@[lev] as int, lev) by {
                assert(self.link(n as int, lev) == fin0.link(n as int, lev));
            }
            assert(self.key_of(n as int) == fin0.key_of(n as int));
            assert(self.height_of(n as int) == fin0.height_of(n as int));
            Self::lemma_insert_wf(mid, *self, prev@, px, k, h as int);
            assert(mid.key_seq() == old(self).key_seq());
            assert(self.key_seq() == old(self).key_seq().insert(px + 1, k));
            old(self).key_seq().insert_ensures(px + 1, k);
            // Membership of the new key sequence.
            assert forall|k2: Seq<u8>| self.contains_key(k2) <==> (old(self).contains_key(k2)
                || k2 == k) by {
                if self.contains_key(k2) {
                    let q = choose|q: int|
                        0 <= q < self.key_seq().len() && #[trigger] self.key_seq()[q] == k2;
                    if q < px + 1 {
                        assert(old(self).key_seq()[q] == k2);
                    } else if q == px + 1 {
                        assert(k2 == k);
                    } else {
                        assert(old(self).key_seq()[q - 1] == k2);
                    }
                }
                if old(self).contains_key(k2) {
                    let q = choose|q: int|
                        0 <= q < old(self).key_seq().len() && #[trigger] old(self).key_seq()[q]
                            == k2;
                    if q < px + 1 {
                        assert(self.key_seq()[q] == k2);
                    } else {
                        assert(self.key_seq()[q + 1] == k2);
                    }
                }
                if k2 == k {
                    assert(self.key_seq()[px + 1] == k);
                }
            }
        }
    }
}

/// Index sortedness: under the invariant, the full traversal's keys are
/// strictly increasing (so the sequence is non-decreasing and duplicate
/// free).
pub proof fn lemma_key_seq_sorted(s: SkipList)
    requires
        s.wf(),
    ensures
        forall|p: int, q: int|
            0 <= p < q < s.key_seq().len() ==> lex_lt(
                #[trigger] s.key_seq()[p],
                #[trigger] s.key_seq()[q],
            ),
{
    assert forall|p: int, q: int| 0 <= p < q < s.key_seq().len() implies lex_lt(
        #[trigger] s.key_seq()[p],
        #[trigger] s.key_seq()[q],
    ) by {
        assert(s.key_seq()[p] == s.key_of(s.order@[p]));
        assert(s.key_seq()[q] == s.key_of(s.order@[q]));
    }
}

} // verus!
