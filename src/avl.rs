use vstd::prelude::*;
use vstd::set_lib::lemma_set_disjoint_lens;
use vstd::string::StringExecFns;

verus! {

/// One node of the tree: the players tied at `score`, and the two subtrees.
pub struct AVLNode {
    players: Vec<String>,
    score: u64,
    right: Option<Box<AVLNode>>,
    left: Option<Box<AVLNode>>,
    height: usize,
    children: usize,
}

pub open spec fn max_nat(a: nat, b: nat) -> nat {
    if a >= b { a } else { b }
}

impl AVLNode {
    /// Number of nodes in an optional subtree.
    pub closed spec fn opt_size(t: Option<Box<AVLNode>>) -> nat
        decreases t,
    {
        match t {
            None => 0,
            Some(n) => 1 + AVLNode::opt_size(n.left) + AVLNode::opt_size(n.right),
        }
    }

    /// The score of this node.
    pub closed spec fn key(self) -> u64 {
        self.score
    }

    /// Whether this node has no children.
    pub closed spec fn is_leaf(self) -> bool {
        self.left is None && self.right is None
    }

    /// Cached height of this subtree.
    pub closed spec fn ht(self) -> nat {
        self.height as nat
    }

    pub closed spec fn size(self) -> nat {
        1 + AVLNode::opt_size(self.left) + AVLNode::opt_size(self.right)
    }

    /// Cached height of an optional subtree (0 when absent).
    pub closed spec fn opt_height(t: Option<Box<AVLNode>>) -> nat {
        match t {
            None => 0,
            Some(n) => n.height as nat,
        }
    }

    /// The buckets held by an optional subtree, by score.
    pub closed spec fn opt_map(t: Option<Box<AVLNode>>) -> Map<u64, Seq<Seq<char>>>
        decreases t,
    {
        match t {
            None => Map::empty(),
            Some(n) => AVLNode::opt_map(n.left).union_prefer_right(AVLNode::opt_map(n.right)).insert(
                n.score,
                bucket_view(n.players@),
            ),
        }
    }

    pub closed spec fn map_of(self) -> Map<u64, Seq<Seq<char>>> {
        AVLNode::opt_map(self.left).union_prefer_right(AVLNode::opt_map(self.right)).insert(
            self.score,
            bucket_view(self.players@),
        )
    }

    /// Every (player, score) pair of a subtree, highest score first, each bucket in its order.
    pub closed spec fn opt_listing(t: Option<Box<AVLNode>>) -> Seq<(Seq<char>, u64)>
        decreases t,
    {
        match t {
            None => Seq::empty(),
            Some(n) => AVLNode::opt_listing(n.right) + bucket_pairs(n.players@, n.score)
                + AVLNode::opt_listing(n.left),
        }
    }

    pub closed spec fn listing(self) -> Seq<(Seq<char>, u64)> {
        AVLNode::opt_listing(self.right) + bucket_pairs(self.players@, self.score)
            + AVLNode::opt_listing(self.left)
    }

    /// Search-tree order at this node: smaller scores left, larger right.
    pub closed spec fn ordered(self) -> bool {
        &&& forall|k: u64| AVLNode::opt_map(self.left).contains_key(k) ==> k < self.score
        &&& forall|k: u64| AVLNode::opt_map(self.right).contains_key(k) ==> k > self.score
    }

    /// The cached height and node count agree with the children.
    pub closed spec fn cached(self) -> bool {
        &&& self.height == 1 + max_nat(
            AVLNode::opt_height(self.left),
            AVLNode::opt_height(self.right),
        )
        &&& self.children == AVLNode::opt_size(self.left) + AVLNode::opt_size(self.right)
        &&& self.height <= self.size()
        &&& self.size() <= usize::MAX
    }

    pub closed spec fn opt_cached(t: Option<Box<AVLNode>>) -> bool {
        match t {
            None => true,
            Some(n) => n.cached(),
        }
    }

    /// The heights of the two children differ by at most one.
    pub closed spec fn balanced(self) -> bool {
        &&& AVLNode::opt_height(self.left) <= AVLNode::opt_height(self.right) + 1
        &&& AVLNode::opt_height(self.right) <= AVLNode::opt_height(self.left) + 1
    }

    /// Everything but the bucket being non-empty, at this node, over well-formed children.
    pub closed spec fn shape(self) -> bool {
        &&& self.ordered()
        &&& self.cached()
        &&& self.balanced()
        &&& AVLNode::opt_wf(self.left)
        &&& AVLNode::opt_wf(self.right)
    }

    pub closed spec fn wf(self) -> bool
        decreases self,
    {
        &&& self.players@.len() > 0
        &&& self.ordered()
        &&& self.cached()
        &&& self.balanced()
        &&& match self.left {
            None => true,
            Some(l) => l.wf(),
        }
        &&& match self.right {
            None => true,
            Some(r) => r.wf(),
        }
    }

    pub closed spec fn opt_wf(t: Option<Box<AVLNode>>) -> bool {
        match t {
            None => true,
            Some(n) => n.wf(),
        }
    }
}

/// The pairs (player, score) of one bucket, in bucket order.
pub open spec fn bucket_pairs(b: Seq<String>, score: u64) -> Seq<(Seq<char>, u64)> {
    b.map_values(|p: String| (p@, score))
}

/// The names of a bucket, in bucket order.
pub open spec fn bucket_view(b: Seq<String>) -> Seq<Seq<char>> {
    b.map_values(|p: String| p@)
}

impl AVLNode {
    /// A single-node tree holding one player.
    pub fn new(player: &str, score: u64) -> (r: Self)
        ensures
            r.wf(),
            r.size() == 1,
            r.ht() == 1,
            r.map_of() == Map::<u64, Seq<Seq<char>>>::empty().insert(score, seq![player@]),
    {
        let p = player.to_owned();
        let mut players: Vec<String> = Vec::new();
        players.push(p);
        let r = AVLNode { players, score, right: None, left: None, height: 1, children: 0 };
        proof {
            assert(bucket_view(r.players@) =~= seq![player@]);
            assert(AVLNode::opt_map(None) == Map::<u64, Seq<Seq<char>>>::empty());
            assert(r.map_of() =~= Map::<u64, Seq<Seq<char>>>::empty().insert(score, bucket_view(r.players@)));
        }
        r
    }
}

impl AVLNode {
    fn height_left(&self) -> (r: usize)
        ensures
            r == AVLNode::opt_height(self.left),
    {
        match &self.left {
            Some(l) => l.height,
            None => 0,
        }
    }

    fn height_right(&self) -> (r: usize)
        ensures
            r == AVLNode::opt_height(self.right),
    {
        match &self.right {
            Some(r) => r.height,
            None => 0,
        }
    }

    /// Recomputes the cached height and node count from the children.
    fn update_attrs(&mut self)
        requires
            AVLNode::opt_cached(old(self).left),
            AVLNode::opt_cached(old(self).right),
            AVLNode::opt_size(old(self).left) + AVLNode::opt_size(old(self).right) < usize::MAX,
        ensures
            final(self).cached(),
            final(self).players == old(self).players,
            final(self).score == old(self).score,
            final(self).left == old(self).left,
            final(self).right == old(self).right,
    {
        let hl = self.height_left();
        let hr = self.height_right();
        proof {
            assert(self.left is Some ==> self.left.unwrap().cached());
            assert(self.right is Some ==> self.right.unwrap().cached());
        }
        self.height = if hl >= hr { hl + 1 } else { hr + 1 };
        let lc: usize = match &self.left {
            Some(l) => l.children + 1,
            None => 0,
        };
        let rc: usize = match &self.right {
            Some(r) => r.children + 1,
            None => 0,
        };
        self.children = lc + rc;
    }

    /// Left rotation: the right child becomes the root of this subtree.
    fn rotate_left(&mut self)
        requires
            old(self).right is Some,
            old(self).ordered(),
            old(self).right.unwrap().ordered(),
            AVLNode::opt_cached(old(self).left),
            AVLNode::opt_cached(old(self).right.unwrap().left),
            AVLNode::opt_cached(old(self).right.unwrap().right),
            old(self).size() <= usize::MAX,
        ensures
            ({
                let a = *old(self);
                let b = *old(self).right.unwrap();
                let f = *final(self);
                &&& f.score == b.score
                &&& f.players == b.players
                &&& f.right == b.right
                &&& f.left is Some
                &&& f.left.unwrap().score == a.score
                &&& f.left.unwrap().players == a.players
                &&& f.left.unwrap().left == a.left
                &&& f.left.unwrap().right == b.left
                &&& f.left.unwrap().cached()
                &&& f.left.unwrap().ordered()
                &&& f.cached()
                &&& f.ordered()
                &&& f.map_of() == a.map_of()
                &&& f.listing() == a.listing()
                &&& f.size() == a.size()
            }),
    {
        let mut b = self.right.take().unwrap();
        self.right = b.left.take();
        self.update_attrs();
        std::mem::swap(self, &mut *b);
        self.left = Some(b);
        self.update_attrs();
        proof {
            let a = *old(self);
            let ob = *old(self).right.unwrap();
            let x = *final(self).left.unwrap();
            assert(AVLNode::opt_map(a.right) == ob.map_of());
            assert(AVLNode::opt_map(final(self).left) == x.map_of());
            assert(x.map_of() =~= AVLNode::opt_map(a.left).union_prefer_right(AVLNode::opt_map(ob.left)).insert(a.score, bucket_view(a.players@)));
            assert forall|k: u64| #[trigger] final(self).map_of().contains_key(k) == a.map_of().contains_key(k) by {}
            assert forall|k: u64| #[trigger] final(self).map_of().contains_key(k) implies final(self).map_of()[k] == a.map_of()[k] by {
                assert(ob.map_of().contains_key(ob.score));
                assert(AVLNode::opt_map(a.right).contains_key(ob.score));
                if k == ob.score {
                } else if k == a.score {
                } else if AVLNode::opt_map(a.left).contains_key(k) {
                    if AVLNode::opt_map(ob.left).contains_key(k) || AVLNode::opt_map(ob.right).contains_key(k) {
                        assert(ob.map_of().contains_key(k));
                        assert(AVLNode::opt_map(a.right).contains_key(k));
                    }
                } else if AVLNode::opt_map(ob.left).contains_key(k) {
                    assert(ob.map_of().contains_key(k));
                    assert(AVLNode::opt_map(a.right).contains_key(k));
                    assert(!AVLNode::opt_map(ob.right).contains_key(k));
                    assert(x.map_of().contains_key(k));
                    assert(x.map_of()[k] == AVLNode::opt_map(ob.left)[k]);
                    assert(final(self).map_of()[k] == a.map_of()[k]);
                } else {
                    assert(AVLNode::opt_map(ob.right).contains_key(k));
                    assert(final(self).map_of()[k] == a.map_of()[k]);
                }
            }
            assert(final(self).map_of() =~= a.map_of());
            assert(final(self).listing() =~= a.listing());
            assert forall|k: u64| #[trigger] AVLNode::opt_map(ob.left).contains_key(k) implies k > a.score by {
                assert(ob.map_of().contains_key(k));
                assert(AVLNode::opt_map(a.right).contains_key(k));
            }
            assert forall|k: u64| #[trigger] x.map_of().contains_key(k) implies k < ob.score by {
                assert(ob.map_of().contains_key(ob.score));
                assert(AVLNode::opt_map(a.right).contains_key(ob.score));
                if AVLNode::opt_map(a.left).contains_key(k) {
                    assert(k < a.score);
                }
            }
            assert(x.ordered());
            assert(final(self).ordered());
        }
    }
}

impl AVLNode {
    /// Right rotation: the left child becomes the root of this subtree.
    fn rotate_right(&mut self)
        requires
            old(self).left is Some,
            old(self).ordered(),
            old(self).left.unwrap().ordered(),
            AVLNode::opt_cached(old(self).right),
            AVLNode::opt_cached(old(self).left.unwrap().right),
            AVLNode::opt_cached(old(self).left.unwrap().left),
            old(self).size() <= usize::MAX,
        ensures
            ({
                let a = *old(self);
                let b = *old(self).left.unwrap();
                let f = *final(self);
                &&& f.score == b.score
                &&& f.players == b.players
                &&& f.left == b.left
                &&& f.right is Some
                &&& f.right.unwrap().score == a.score
                &&& f.right.unwrap().players == a.players
                &&& f.right.unwrap().right == a.right
                &&& f.right.unwrap().left == b.right
                &&& f.right.unwrap().cached()
                &&& f.right.unwrap().ordered()
                &&& f.cached()
                &&& f.ordered()
                &&& f.map_of() == a.map_of()
                &&& f.listing() == a.listing()
                &&& f.size() == a.size()
            }),
    {
        let mut b = self.left.take().unwrap();
        self.left = b.right.take();
        self.update_attrs();
        std::mem::swap(self, &mut *b);
        self.right = Some(b);
        self.update_attrs();
        proof {
            let a = *old(self);
            let ob = *old(self).left.unwrap();
            let x = *final(self).right.unwrap();
            assert(AVLNode::opt_map(a.left) == ob.map_of());
            assert(AVLNode::opt_map(final(self).right) == x.map_of());
            assert(x.map_of() =~= AVLNode::opt_map(ob.right).union_prefer_right(AVLNode::opt_map(a.right)).insert(a.score, bucket_view(a.players@)));
            assert forall|k: u64| #[trigger] final(self).map_of().contains_key(k) == a.map_of().contains_key(k) by {}
            assert forall|k: u64| #[trigger] final(self).map_of().contains_key(k) implies final(self).map_of()[k] == a.map_of()[k] by {
                assert(ob.map_of().contains_key(ob.score));
                assert(AVLNode::opt_map(a.left).contains_key(ob.score));
                if k == ob.score {
                } else if k == a.score {
                } else if AVLNode::opt_map(a.right).contains_key(k) {
                    if AVLNode::opt_map(ob.right).contains_key(k) || AVLNode::opt_map(ob.left).contains_key(k) {
                        assert(ob.map_of().contains_key(k));
                        assert(AVLNode::opt_map(a.left).contains_key(k));
                    }
                } else if AVLNode::opt_map(ob.right).contains_key(k) {
                    assert(ob.map_of().contains_key(k));
                    assert(AVLNode::opt_map(a.left).contains_key(k));
                    assert(!AVLNode::opt_map(ob.left).contains_key(k));
                    assert(x.map_of().contains_key(k));
                    assert(x.map_of()[k] == AVLNode::opt_map(ob.right)[k]);
                    assert(final(self).map_of()[k] == a.map_of()[k]);
                } else {
                    assert(AVLNode::opt_map(ob.left).contains_key(k));
                    assert(final(self).map_of()[k] == a.map_of()[k]);
                }
            }
            assert(final(self).map_of() =~= a.map_of());
            assert(final(self).listing() =~= a.listing());
            assert forall|k: u64| #[trigger] AVLNode::opt_map(ob.right).contains_key(k) implies k < a.score by {
                assert(ob.map_of().contains_key(k));
                assert(AVLNode::opt_map(a.left).contains_key(k));
            }
            assert forall|k: u64| #[trigger] x.map_of().contains_key(k) implies k > ob.score by {
                assert(ob.map_of().contains_key(ob.score));
                assert(AVLNode::opt_map(a.left).contains_key(ob.score));
                if AVLNode::opt_map(a.right).contains_key(k) {
                    assert(k > a.score);
                }
            }
            assert(x.ordered());
            assert(final(self).ordered());
        }
    }
}

/// The buckets after `player` joins the bucket at `score`.
pub open spec fn map_with(m: Map<u64, Seq<Seq<char>>>, player: Seq<char>, score: u64) -> Map<u64, Seq<Seq<char>>> {
    if m.contains_key(score) {
        m.insert(score, m[score].push(player))
    } else {
        m.insert(score, seq![player])
    }
}

impl AVLNode {
    /// Restores the height balance at this node, whose children are well formed
    /// and differ in height by at most two.
    fn rebalance_if_needed(&mut self)
        requires
            old(self).players@.len() > 0,
            old(self).ordered(),
            old(self).cached(),
            AVLNode::opt_wf(old(self).left),
            AVLNode::opt_wf(old(self).right),
            AVLNode::opt_height(old(self).left) <= AVLNode::opt_height(old(self).right) + 2,
            AVLNode::opt_height(old(self).right) <= AVLNode::opt_height(old(self).left) + 2,
            old(self).size() <= usize::MAX,
        ensures
            final(self).wf(),
            final(self).map_of() == old(self).map_of(),
            final(self).listing() == old(self).listing(),
            final(self).size() == old(self).size(),
            final(self).ht() == old(self).ht() || (!old(self).balanced() && final(self).ht() + 1
                == old(self).ht()),
            old(self).balanced() ==> *final(self) == *old(self),
    {
        let hl = self.height_left();
        let hr = self.height_right();
        if hr > hl + 1 {
            self.fix_right_heavy();
        } else if hl > hr + 1 {
            self.fix_left_heavy();
        }
    }

    #[verifier::rlimit(50)]
    fn fix_right_heavy(&mut self)
        requires
            old(self).players@.len() > 0,
            old(self).ordered(),
            old(self).cached(),
            AVLNode::opt_wf(old(self).left),
            AVLNode::opt_wf(old(self).right),
            AVLNode::opt_height(old(self).right) == AVLNode::opt_height(old(self).left) + 2,
            old(self).size() <= usize::MAX,
        ensures
            final(self).wf(),
            final(self).map_of() == old(self).map_of(),
            final(self).listing() == old(self).listing(),
            final(self).size() == old(self).size(),
            final(self).ht() == old(self).ht() || final(self).ht() + 1 == old(self).ht(),
    {
        let rr_heavy = match &self.right {
            Some(r) => r.height_right() >= r.height_left(),
            None => true,
        };
        proof {
            let c = *self.right.unwrap();
            assert(c.wf());
            assert(AVLNode::opt_wf(c.left));
            assert(AVLNode::opt_wf(c.right));
            if c.left is Some {
                let d = *c.left.unwrap();
                assert(d.wf());
                assert(AVLNode::opt_wf(d.left));
                assert(AVLNode::opt_wf(d.right));
            }
        }
        let ghost a = *self;
        let ghost c = *self.right.unwrap();
        if !rr_heavy {
            let mut r = self.right.take().unwrap();
            r.rotate_right();
            proof {
                let y = *r.right.unwrap();
                assert(y.wf());
            }
            self.right = Some(r);
            proof {
                assert(AVLNode::opt_map(self.right) == c.map_of());
                assert(AVLNode::opt_map(a.right) == c.map_of());
            }
        }
        self.rotate_left();
        proof {
            let x = *self.left.unwrap();
            assert(x.wf());
            assert(AVLNode::opt_wf(self.left));
            assert(AVLNode::opt_wf(self.right));
        }
    }

    #[verifier::rlimit(50)]
    fn fix_left_heavy(&mut self)
        requires
            old(self).players@.len() > 0,
            old(self).ordered(),
            old(self).cached(),
            AVLNode::opt_wf(old(self).left),
            AVLNode::opt_wf(old(self).right),
            AVLNode::opt_height(old(self).left) == AVLNode::opt_height(old(self).right) + 2,
            old(self).size() <= usize::MAX,
        ensures
            final(self).wf(),
            final(self).map_of() == old(self).map_of(),
            final(self).listing() == old(self).listing(),
            final(self).size() == old(self).size(),
            final(self).ht() == old(self).ht() || final(self).ht() + 1 == old(self).ht(),
    {
        let ll_heavy = match &self.left {
            Some(l) => l.height_left() >= l.height_right(),
            None => true,
        };
        proof {
            let c = *self.left.unwrap();
            assert(c.wf());
            assert(AVLNode::opt_wf(c.left));
            assert(AVLNode::opt_wf(c.right));
            if c.right is Some {
                let d = *c.right.unwrap();
                assert(d.wf());
                assert(AVLNode::opt_wf(d.left));
                assert(AVLNode::opt_wf(d.right));
            }
        }
        let ghost a = *self;
        let ghost c = *self.left.unwrap();
        if !ll_heavy {
            let mut l = self.left.take().unwrap();
            l.rotate_left();
            proof {
                let y = *l.left.unwrap();
                assert(y.wf());
            }
            self.left = Some(l);
            proof {
                assert(AVLNode::opt_map(self.left) == c.map_of());
                assert(AVLNode::opt_map(a.left) == c.map_of());
            }
        }
        self.rotate_right();
        proof {
            let x = *self.right.unwrap();
            assert(x.wf());
            assert(AVLNode::opt_wf(self.right));
            assert(AVLNode::opt_wf(self.left));
        }
    }
}

impl AVLNode {
    /// Adds `player` to the bucket at `score`, creating the node if the score is new,
    /// and rebalances on the way back up.
    pub fn insert(&mut self, player: &str, score: u64)
        requires
            old(self).wf(),
            old(self).size() < usize::MAX,
        ensures
            final(self).wf(),
            final(self).map_of() == map_with(old(self).map_of(), player@, score),
            final(self).size() == old(self).size() + if old(self).map_of().contains_key(score) {
                0nat
            } else {
                1nat
            },
            old(self).ht() <= final(self).ht() <= old(self).ht() + 1,
        decreases old(self).size(),
    {
        let ghost o = *self;
        if self.score == score {
            self.players.push(player.to_owned());
            proof {
                assert(!AVLNode::opt_map(o.left).contains_key(score));
                assert(!AVLNode::opt_map(o.right).contains_key(score));
                assert(bucket_view(self.players@) =~= bucket_view(o.players@).push(player@));
                assert(self.map_of() =~= map_with(o.map_of(), player@, score));
            }
            return;
        } else if score < self.score {
            match self.left.take() {
                Some(mut l) => {
                    l.insert(player, score);
                    self.left = Some(l);
                },
                None => {
                    self.left = Some(Box::new(AVLNode::new(player, score)));
                },
            }
            proof {
                assert(!AVLNode::opt_map(o.right).contains_key(score));
                assert(AVLNode::opt_wf(self.right));
                assert(AVLNode::opt_cached(self.right));
                assert(AVLNode::opt_map(self.left) =~= map_with(AVLNode::opt_map(o.left), player@, score));
                assert forall|k: u64| #[trigger] AVLNode::opt_map(self.left).contains_key(k) implies k < self.score by {
                    if k != score {
                        assert(AVLNode::opt_map(o.left).contains_key(k));
                    }
                }
            }
            self.update_attrs();
        } else {
            match self.right.take() {
                Some(mut r) => {
                    r.insert(player, score);
                    self.right = Some(r);
                },
                None => {
                    self.right = Some(Box::new(AVLNode::new(player, score)));
                },
            }
            proof {
                assert(!AVLNode::opt_map(o.left).contains_key(score));
                assert(AVLNode::opt_wf(self.left));
                assert(AVLNode::opt_cached(self.left));
                assert(AVLNode::opt_map(self.right) =~= map_with(AVLNode::opt_map(o.right), player@, score));
                assert forall|k: u64| #[trigger] AVLNode::opt_map(self.right).contains_key(k) implies k > self.score by {
                    if k != score {
                        assert(AVLNode::opt_map(o.right).contains_key(k));
                    }
                }
            }
            self.update_attrs();
        }
        proof {
            assert(self.map_of() =~= map_with(o.map_of(), player@, score));
        }
        self.rebalance_if_needed();
    }
}

/// The first `n` items of `s`, or all of them when there are fewer.
pub open spec fn first_n<A>(s: Seq<A>, n: nat) -> Seq<A> {
    if n >= s.len() {
        s
    } else {
        s.take(n as int)
    }
}

/// A list of (player, score) pairs with each name as its characters.
pub open spec fn pairs_view(v: Seq<(String, u64)>) -> Seq<(Seq<char>, u64)> {
    v.map_values(|e: (String, u64)| (e.0@, e.1))
}

impl AVLNode {
    /// Number of nodes of an optional subtree whose score is above `s`.
    pub closed spec fn opt_above(t: Option<Box<AVLNode>>, s: u64) -> nat
        decreases t,
    {
        match t {
            None => 0,
            Some(n) => AVLNode::opt_above(n.left, s) + AVLNode::opt_above(n.right, s) + if n.score
                > s {
                1nat
            } else {
                0nat
            },
        }
    }

    pub closed spec fn above(self, s: u64) -> nat {
        AVLNode::opt_above(self.left, s) + AVLNode::opt_above(self.right, s) + if self.score > s {
            1nat
        } else {
            0nat
        }
    }

    proof fn lemma_above_bounds(t: Option<Box<AVLNode>>, s: u64)
        ensures
            AVLNode::opt_above(t, s) <= AVLNode::opt_size(t),
            (forall|k: u64| #[trigger] AVLNode::opt_map(t).contains_key(k) ==> k > s)
                ==> AVLNode::opt_above(t, s) == AVLNode::opt_size(t),
            (forall|k: u64| #[trigger] AVLNode::opt_map(t).contains_key(k) ==> k < s)
                ==> AVLNode::opt_above(t, s) == 0,
        decreases t,
    {
        if let Some(n) = t {
            AVLNode::lemma_above_bounds(n.left, s);
            AVLNode::lemma_above_bounds(n.right, s);
            assert(AVLNode::opt_map(t).contains_key(n.score));
            assert forall|k: u64| #[trigger] AVLNode::opt_map(n.left).contains_key(k) implies AVLNode::opt_map(t).contains_key(k) by {}
            assert forall|k: u64| #[trigger] AVLNode::opt_map(n.right).contains_key(k) implies AVLNode::opt_map(t).contains_key(k) by {}
        }
    }

    /// Whether `player` is in the bucket at `score`.
    pub closed spec fn holds(self, player: Seq<char>, score: u64) -> bool {
        self.map_of().contains_key(score) && self.map_of()[score].contains(player)
    }
}

/// Whether a bucket names `p`.
fn bucket_has(players: &Vec<String>, p: &String) -> (r: bool)
    ensures
        r == bucket_view(players@).contains(p@),
{
    let mut i: usize = 0;
    while i < players.len()
        invariant
            i <= players.len(),
            forall|j: int| 0 <= j < i ==> players@[j]@ != p@,
        decreases players.len() - i,
    {
        if players[i] == *p {
            proof {
                assert(bucket_view(players@)[i as int] == p@);
            }
            return true;
        }
        i = i + 1;
    }
    proof {
        if bucket_view(players@).contains(p@) {
            let j = choose|j: int| 0 <= j < bucket_view(players@).len() && bucket_view(players@)[j] == p@;
            assert(players@[j]@ == p@);
        }
    }
    false
}

impl AVLNode {
    /// The `n` best (player, score) pairs of this subtree: highest score first, each
    /// bucket in its own order.
    pub fn top_n_players(&self, n: usize) -> (r: Vec<(String, u64)>)
        ensures
            pairs_view(r@) == first_n(self.listing(), n as nat),
        decreases self.size(),
    {
        let mut results: Vec<(String, u64)> = Vec::new();
        match &self.right {
            Some(right) => {
                results = right.top_n_players(n);
            },
            None => {},
        }
        let ghost rl = AVLNode::opt_listing(self.right);
        let ghost bp = bucket_pairs(self.players@, self.score);
        let ghost ll = AVLNode::opt_listing(self.left);
        assert(self.listing() == rl + bp + ll);
        if results.len() >= n {
            proof {
                assert(pairs_view(results@) =~= first_n(self.listing(), n as nat));
            }
            return results;
        }
        assert(pairs_view(results@) == rl);
        let rem = n - results.len();
        let mut i: usize = 0;
        while i < self.players.len() && i < rem
            invariant
                i <= self.players.len(),
                i <= rem,
                rem == n - rl.len(),
                rl.len() < n,
                bp == bucket_pairs(self.players@, self.score),
                pairs_view(results@) == rl + bp.take(i as int),
            decreases self.players.len() - i,
        {
            let ghost prev = results@;
            results.push((self.players[i].clone(), self.score));
            i = i + 1;
            proof {
                assert(bp[i - 1] == (self.players@[i - 1]@, self.score));
                assert(pairs_view(results@) =~= pairs_view(prev).push(bp[i - 1]));
                assert(bp.take(i as int) =~= bp.take(i - 1) + seq![bp[i - 1]]);
                assert(pairs_view(results@) =~= rl + bp.take(i as int));
            }
        }
        if results.len() < n {
            assert(i == self.players.len());
            assert(bp.take(i as int) =~= bp);
            match &self.left {
                Some(left) => {
                    let ghost prev = results@;
                    let mut more = left.top_n_players(n - results.len());
                    let ghost m = more@;
                    results.append(&mut more);
                    proof {
                        assert(pairs_view(results@) =~= pairs_view(prev) + pairs_view(m));
                        assert(pairs_view(prev) == rl + bp);
                    }
                },
                None => {},
            }
            proof {
                assert(pairs_view(results@) =~= first_n(self.listing(), n as nat));
            }
        } else {
            proof {
                assert(pairs_view(results@) =~= first_n(self.listing(), n as nat));
            }
        }
        results
    }

    /// Rank of `player` at `score` in this subtree, offset by `num_better` nodes
    /// known to score higher: one more than the number of nodes above `score`.
    pub fn rank_of(&self, player: &str, score: u64, num_better: usize) -> (r: Option<usize>)
        requires
            self.wf(),
            num_better + self.size() <= usize::MAX,
        ensures
            r is Some == self.holds(player@, score),
            r is Some ==> r.unwrap() == 1 + self.above(score) + num_better,
        decreases self.size(),
    {
        proof {
            assert(AVLNode::opt_wf(self.left));
            assert(AVLNode::opt_wf(self.right));
            assert(AVLNode::opt_cached(self.right));
        }
        let right_tree_size: usize = match &self.right {
            Some(r) => r.children + 1,
            None => 0,
        };
        proof {
            assert(right_tree_size == AVLNode::opt_size(self.right));
            AVLNode::lemma_above_bounds(self.left, score);
            AVLNode::lemma_above_bounds(self.right, score);
        }
        if self.score == score {
            let p = player.to_owned();
            proof {
                assert(!AVLNode::opt_map(self.left).contains_key(score));
                assert(!AVLNode::opt_map(self.right).contains_key(score));
            }
            if !bucket_has(&self.players, &p) {
                return None;
            }
            Some(1 + right_tree_size + num_better)
        } else if score < self.score {
            proof {
                assert(!AVLNode::opt_map(self.right).contains_key(score));
            }
            match &self.left {
                Some(left) => left.rank_of(player, score, 1 + right_tree_size + num_better),
                None => None,
            }
        } else {
            proof {
                assert(!AVLNode::opt_map(self.left).contains_key(score));
            }
            match &self.right {
                Some(right) => right.rank_of(player, score, num_better),
                None => None,
            }
        }
    }
}

/// A bucket without any entry equal to `p`, the others kept in order.
pub open spec fn without(b: Seq<Seq<char>>, p: Seq<char>) -> Seq<Seq<char>>
    decreases b.len(),
{
    if b.len() == 0 {
        b
    } else {
        let rest = without(b.drop_last(), p);
        if b.last() == p {
            rest
        } else {
            rest.push(b.last())
        }
    }
}

/// The buckets after `player` leaves the bucket at `score`; a bucket left empty goes.
pub open spec fn map_without(m: Map<u64, Seq<Seq<char>>>, player: Seq<char>, score: u64) -> Map<u64, Seq<Seq<char>>> {
    if !m.contains_key(score) {
        m
    } else if without(m[score], player).len() == 0 {
        m.remove(score)
    } else {
        m.insert(score, without(m[score], player))
    }
}

/// The players of a bucket other than `p`, in order.
fn retain_others(players: &Vec<String>, p: &String) -> (r: Vec<String>)
    ensures
        bucket_view(r@) == without(bucket_view(players@), p@),
{
    let mut kept: Vec<String> = Vec::new();
    let mut i: usize = 0;
    while i < players.len()
        invariant
            i <= players.len(),
            bucket_view(kept@) == without(bucket_view(players@).take(i as int), p@),
        decreases players.len() - i,
    {
        let ghost prev = kept@;
        proof {
            let t = bucket_view(players@).take(i + 1);
            assert(t.drop_last() =~= bucket_view(players@).take(i as int));
            assert(t.last() == players@[i as int]@);
        }
        if players[i] != *p {
            kept.push(players[i].clone());
            proof {
                assert(bucket_view(kept@) =~= bucket_view(prev).push(players@[i as int]@));
            }
        }
        i = i + 1;
    }
    proof {
        assert(bucket_view(players@).take(i as int) =~= bucket_view(players@));
    }
    kept
}

impl AVLNode {
    /// Removes the node with the largest score from a non-empty subtree and returns
    /// that score with its bucket.
    fn take_max(t: &mut Option<Box<AVLNode>>) -> (r: (u64, Vec<String>))
        requires
            old(t).is_some(),
            AVLNode::opt_wf(*old(t)),
        ensures
            AVLNode::opt_wf(*final(t)),
            AVLNode::opt_map(*old(t)).contains_key(r.0),
            forall|k: u64| #[trigger] AVLNode::opt_map(*old(t)).contains_key(k) ==> k <= r.0,
            bucket_view(r.1@) == AVLNode::opt_map(*old(t))[r.0],
            r.1@.len() > 0,
            AVLNode::opt_map(*final(t)) == AVLNode::opt_map(*old(t)).remove(r.0),
            AVLNode::opt_size(*final(t)) + 1 == AVLNode::opt_size(*old(t)),
            AVLNode::opt_height(*final(t)) == AVLNode::opt_height(*old(t))
                || AVLNode::opt_height(*final(t)) + 1 == AVLNode::opt_height(*old(t)),
        decreases AVLNode::opt_size(*old(t)),
    {
        let mut node = t.take().unwrap();
        let ghost o = *node;
        proof {
            assert(o.wf());
            assert(AVLNode::opt_wf(o.left));
            assert(AVLNode::opt_wf(o.right));
        }
        if node.right.is_none() {
            let n = *node;
            *t = n.left;
            proof {
                assert(AVLNode::opt_map(o.right) =~= Map::empty());
                assert(!AVLNode::opt_map(o.left).contains_key(o.score));
                assert(AVLNode::opt_map(*t) =~= o.map_of().remove(o.score));
                assert(AVLNode::opt_height(o.left) + 1 == o.ht());
            }
            (n.score, n.players)
        } else {
            let r = AVLNode::take_max(&mut node.right);
            proof {
                assert(AVLNode::opt_cached(node.left));
                assert(AVLNode::opt_cached(node.right));
                assert forall|k: u64| #[trigger] AVLNode::opt_map(node.right).contains_key(k) implies k > node.score by {
                    assert(AVLNode::opt_map(o.right).contains_key(k));
                }
                assert(AVLNode::opt_map(o.right).contains_key(r.0));
                assert(!AVLNode::opt_map(o.left).contains_key(r.0));
                assert forall|k: u64| #[trigger] o.map_of().contains_key(k) implies k <= r.0 by {
                    if AVLNode::opt_map(o.left).contains_key(k) {
                        assert(k < o.score);
                    }
                }
            }
            node.update_attrs();
            proof {
                assert(node.map_of() =~= o.map_of().remove(r.0));
            }
            node.rebalance_if_needed();
            *t = Some(node);
            r
        }
    }

    /// Removes this node from its subtree. Returns true when the node has no
    /// children, in which case the caller drops it; otherwise this node now holds
    /// the rest of the subtree.
    pub fn delete(&mut self) -> (r: bool)
        requires
            old(self).shape(),
        ensures
            r == old(self).is_leaf(),
            !r ==> final(self).wf(),
            !r ==> final(self).map_of() == old(self).map_of().remove(old(self).key()),
            !r ==> final(self).size() + 1 == old(self).size(),
            !r ==> (final(self).ht() == old(self).ht() || final(self).ht() + 1 == old(self).ht()),
    {
        let ghost o = *self;
        if self.left.is_none() && self.right.is_none() {
            return true;
        }
        if self.left.is_none() {
            let r = self.right.take().unwrap();
            *self = *r;
            proof {
                assert(self.wf());
                assert(o.map_of().remove(o.score) =~= self.map_of());
            }
        } else if self.right.is_none() {
            let l = self.left.take().unwrap();
            *self = *l;
            proof {
                assert(self.wf());
                assert(o.map_of().remove(o.score) =~= self.map_of());
            }
        } else {
            let (k, b) = AVLNode::take_max(&mut self.left);
            self.score = k;
            self.players = b;
            proof {
                assert(AVLNode::opt_cached(self.left));
                assert(AVLNode::opt_cached(self.right));
                assert(AVLNode::opt_map(o.left).contains_key(k));
                assert(k < o.score);
                assert(!AVLNode::opt_map(o.right).contains_key(k));
                assert forall|j: u64| #[trigger] AVLNode::opt_map(self.right).contains_key(j) implies j > k by {
                    assert(j > o.score);
                }
            }
            self.update_attrs();
            proof {
                assert(self.map_of() =~= o.map_of().remove(o.score));
            }
            self.rebalance_if_needed();
        }
        false
    }
}

/// Removing a name that a bucket does not hold leaves it as it is.
proof fn lemma_without_absent(b: Seq<Seq<char>>, p: Seq<char>)
    requires
        !b.contains(p),
    ensures
        without(b, p) == b,
    decreases b.len(),
{
    if b.len() > 0 {
        assert(!b.drop_last().contains(p)) by {
            if b.drop_last().contains(p) {
                let j = choose|j: int| 0 <= j < b.drop_last().len() && b.drop_last()[j] == p;
                assert(b[j] == p);
            }
        }
        lemma_without_absent(b.drop_last(), p);
        assert(b.last() != p) by {
            assert(b[b.len() - 1] == b.last());
        }
        assert(b.drop_last().push(b.last()) =~= b);
    }
}

impl AVLNode {
    /// Removes `player` from the bucket at `score`; a node left without players is
    /// deleted. Returns true when this whole subtree is to be dropped by the caller.
    pub fn delete_player_score(&mut self, player: &str, score: u64) -> (r: bool)
        requires
            old(self).wf(),
        ensures
            r ==> map_without(old(self).map_of(), player@, score) == Map::<u64, Seq<Seq<char>>>::empty(),
            r ==> old(self).is_leaf(),
            !r ==> final(self).wf(),
            !r ==> final(self).map_of() == map_without(old(self).map_of(), player@, score),
            !r ==> (final(self).ht() == old(self).ht() || final(self).ht() + 1 == old(self).ht()),
            !r ==> final(self).size() <= old(self).size(),
            !old(self).holds(player@, score) ==> !r && *final(self) == *old(self),
        decreases old(self).size(),
    {
        let ghost o = *self;
        proof {
            assert(AVLNode::opt_wf(o.left));
            assert(AVLNode::opt_wf(o.right));
            assert(AVLNode::opt_cached(o.left));
            assert(AVLNode::opt_cached(o.right));
        }
        if self.score == score {
            let p = player.to_owned();
            proof {
                assert(!AVLNode::opt_map(o.left).contains_key(score));
                assert(!AVLNode::opt_map(o.right).contains_key(score));
                assert(o.map_of()[score] == bucket_view(o.players@));
            }
            if !bucket_has(&self.players, &p) {
                proof {
                    lemma_without_absent(bucket_view(o.players@), player@);
                    assert(o.map_of().insert(score, bucket_view(o.players@)) =~= o.map_of());
                }
                return false;
            }
            let kept = retain_others(&self.players, &p);
            if kept.len() == 0 {
                proof {
                    assert(bucket_view(kept@).len() == 0);
                }
                let gone = self.delete();
                proof {
                    if gone {
                        assert(o.map_of().remove(score) =~= Map::<u64, Seq<Seq<char>>>::empty());
                    }
                }
                return gone;
            }
            self.players = kept;
            proof {
                assert(self.map_of() =~= map_without(o.map_of(), player@, score));
            }
            return false;
        } else if score < self.score {
            proof {
                assert(!AVLNode::opt_map(o.right).contains_key(score));
            }
            match self.left.take() {
                Some(mut l) => {
                    if !l.delete_player_score(player, score) {
                        self.left = Some(l);
                    }
                },
                None => {},
            }
            proof {
                assert(AVLNode::opt_map(self.left) =~= map_without(AVLNode::opt_map(o.left), player@, score));
                assert forall|k: u64| #[trigger] AVLNode::opt_map(self.left).contains_key(k) implies k < self.score by {
                    assert(AVLNode::opt_map(o.left).contains_key(k));
                }
            }
        } else {
            proof {
                assert(!AVLNode::opt_map(o.left).contains_key(score));
            }
            match self.right.take() {
                Some(mut r) => {
                    if !r.delete_player_score(player, score) {
                        self.right = Some(r);
                    }
                },
                None => {},
            }
            proof {
                assert(AVLNode::opt_map(self.right) =~= map_without(AVLNode::opt_map(o.right), player@, score));
                assert forall|k: u64| #[trigger] AVLNode::opt_map(self.right).contains_key(k) implies k > self.score by {
                    assert(AVLNode::opt_map(o.right).contains_key(k));
                }
            }
        }
        proof {
            assert(AVLNode::opt_cached(self.left));
            assert(AVLNode::opt_cached(self.right));
        }
        self.update_attrs();
        proof {
            assert(self.map_of() =~= map_without(o.map_of(), player@, score));
        }
        self.rebalance_if_needed();
        false
    }
}

/// A bucket with `p` taken out holds no `p`.
proof fn lemma_without_clean(b: Seq<Seq<char>>, p: Seq<char>)
    ensures
        !without(b, p).contains(p),
    decreases b.len(),
{
    if b.len() > 0 {
        lemma_without_clean(b.drop_last(), p);
        let rest = without(b.drop_last(), p);
        if b.last() != p {
            assert(!rest.push(b.last()).contains(p)) by {
                if rest.push(b.last()).contains(p) {
                    let j = choose|j: int| 0 <= j < rest.push(b.last()).len() && rest.push(b.last())[j] == p;
                    if j < rest.len() {
                        assert(rest[j] == p);
                    }
                }
            }
        }
    }
}

/// The buckets with `player` taken out of those at the scores of `done`; buckets
/// left empty go.
pub open spec fn strip(m: Map<u64, Seq<Seq<char>>>, player: Seq<char>, done: Set<u64>) -> Map<u64, Seq<Seq<char>>> {
    Map::new(
        |k: u64| m.contains_key(k) && (done.contains(k) ==> without(m[k], player).len() > 0),
        |k: u64| if done.contains(k) { without(m[k], player) } else { m[k] },
    )
}

/// The buckets with `player` taken out of every one; buckets left empty go.
pub open spec fn map_without_player(m: Map<u64, Seq<Seq<char>>>, player: Seq<char>) -> Map<u64, Seq<Seq<char>>> {
    strip(m, player, m.dom())
}

proof fn lemma_push_contains(s: Seq<u64>, x: u64, j: u64)
    ensures
        s.push(x).contains(j) == (s.contains(j) || j == x),
{
    if s.contains(j) {
        let i = choose|i: int| 0 <= i < s.len() && s[i] == j;
        assert(s.push(x)[i] == j);
    }
    if j == x {
        assert(s.push(x)[s.len() as int] == j);
    }
    if s.push(x).contains(j) {
        let i = choose|i: int| 0 <= i < s.push(x).len() && s.push(x)[i] == j;
        if i < s.len() {
            assert(s[i] == j);
        }
    }
}

impl AVLNode {
    /// Appends the score of every node of this subtree to `out`.
    fn collect_scores(&self, out: &mut Vec<u64>)
        ensures
            final(out)@.len() >= old(out)@.len(),
            forall|i: int| 0 <= i < old(out)@.len() ==> final(out)@[i] == old(out)@[i],
            forall|k: u64| #[trigger] self.map_of().contains_key(k) ==> final(out)@.contains(k),
        decreases self.size(),
    {
        let ghost o = out@;
        out.push(self.score);
        proof {
            assert(out@[o.len() as int] == self.score);
        }
        let ghost o1 = out@;
        match &self.left {
            Some(l) => {
                l.collect_scores(out);
                proof {
                    assert(AVLNode::opt_map(self.left) == l.map_of());
                }
            },
            None => {},
        }
        let ghost o2 = out@;
        proof {
            assert forall|k: u64| #[trigger] AVLNode::opt_map(self.left).contains_key(k) implies o2.contains(k) by {}
        }
        match &self.right {
            Some(r) => {
                r.collect_scores(out);
                proof {
                    assert(AVLNode::opt_map(self.right) == r.map_of());
                }
            },
            None => {},
        }
        proof {
            assert forall|k: u64| #[trigger] self.map_of().contains_key(k) implies out@.contains(k) by {
                if k == self.score {
                    assert(out@[o.len() as int] == k);
                } else if AVLNode::opt_map(self.left).contains_key(k) {
                    assert(o2.contains(k));
                    let j = choose|j: int| 0 <= j < o2.len() && o2[j] == k;
                    assert(out@[j] == k);
                } else {
                    assert(AVLNode::opt_map(self.right).contains_key(k));
                }
            }
        }
    }

    /// Removes `player` from every bucket of this subtree, deleting the nodes left
    /// without players. Returns true when this whole subtree is to be dropped.
    pub fn delete_player(&mut self, player: &str) -> (r: bool)
        requires
            old(self).wf(),
        ensures
            r ==> map_without_player(old(self).map_of(), player@) == Map::<u64, Seq<Seq<char>>>::empty(),
            !r ==> final(self).wf(),
            !r ==> final(self).map_of() == map_without_player(old(self).map_of(), player@),
    {
        let ghost m0 = self.map_of();
        let mut scores: Vec<u64> = Vec::new();
        self.collect_scores(&mut scores);
        let ghost mut done: Set<u64> = Set::empty();
        proof {
            assert(strip(m0, player@, done) =~= m0);
        }
        let mut i: usize = 0;
        while i < scores.len()
            invariant
                i <= scores.len(),
                self.wf(),
                self.map_of() == strip(m0, player@, done),
                m0 == old(self).map_of(),
                forall|j: u64| #[trigger] done.contains(j) == scores@.take(i as int).contains(j),
                forall|k: u64| #[trigger] m0.contains_key(k) ==> scores@.contains(k),
            decreases scores.len() - i,
        {
            let k = scores[i];
            let ghost before = done;
            proof {
                done = done.insert(k);
                assert(scores@.take(i + 1) =~= scores@.take(i as int).push(k));
                assert forall|j: u64| #[trigger] done.contains(j) == scores@.take(i + 1).contains(j) by {
                    lemma_push_contains(scores@.take(i as int), k, j);
                }
                if m0.contains_key(k) {
                    lemma_without_clean(m0[k], player@);
                }
                if m0.contains_key(k) && before.contains(k) && without(m0[k], player@).len() > 0 {
                    lemma_without_absent(without(m0[k], player@), player@);
                }
                assert(map_without(strip(m0, player@, before), player@, k) =~= strip(m0, player@, done));
            }
            let gone = self.delete_player_score(player, k);
            if gone {
                proof {
                    assert(strip(m0, player@, done) == Map::<u64, Seq<Seq<char>>>::empty());
                    assert(map_without_player(m0, player@) =~= Map::<u64, Seq<Seq<char>>>::empty()) by {
                        assert forall|j: u64| #[trigger] m0.contains_key(j) implies !map_without_player(m0, player@).contains_key(j) by {
                            assert(!strip(m0, player@, done).contains_key(j));
                            assert(m0.dom().contains(j));
                        }
                    }
                    assert(map_without_player(m0, player@) == Map::<u64, Seq<Seq<char>>>::empty());
                }
                return true;
            }
            i = i + 1;
        }
        proof {
            assert(strip(m0, player@, done) =~= map_without_player(m0, player@)) by {
                assert(scores@.take(i as int) =~= scores@);
                assert forall|k: u64| #[trigger] m0.contains_key(k) implies done.contains(k) by {
                    assert(scores@.contains(k));
                }
            }
        }
        false
    }
}

/// A bucket and its score, with each name as its characters.
pub open spec fn entry_view(e: (Vec<String>, u64)) -> (Seq<Seq<char>>, u64) {
    (bucket_view(e.0@), e.1)
}

/// A copy of a bucket.
fn copy_bucket(v: &Vec<String>) -> (r: Vec<String>)
    ensures
        r@ == v@,
{
    let mut out: Vec<String> = Vec::new();
    let mut i: usize = 0;
    while i < v.len()
        invariant
            i <= v.len(),
            out@ == v@.take(i as int),
        decreases v.len() - i,
    {
        out.push(v[i].clone());
        i = i + 1;
        proof {
            assert(out@ =~= v@.take(i as int));
        }
    }
    proof {
        assert(v@.take(i as int) =~= v@);
    }
    out
}

impl AVLNode {
    /// Every (bucket, score) of an optional subtree: node first, then left, then right.
    pub closed spec fn opt_preorder(t: Option<Box<AVLNode>>) -> Seq<(Seq<Seq<char>>, u64)>
        decreases t,
    {
        match t {
            None => Seq::empty(),
            Some(n) => seq![(bucket_view(n.players@), n.score)] + AVLNode::opt_preorder(n.left)
                + AVLNode::opt_preorder(n.right),
        }
    }

    pub closed spec fn preorder(self) -> Seq<(Seq<Seq<char>>, u64)> {
        seq![(bucket_view(self.players@), self.score)] + AVLNode::opt_preorder(self.left)
            + AVLNode::opt_preorder(self.right)
    }

    /// Pushes this subtree's entries onto `stack` so that popping yields them in
    /// pre-order: the last one first.
    fn stack_pre_order(&self, stack: &mut Vec<(Vec<String>, u64)>)
        ensures
            final(stack)@.len() == old(stack)@.len() + self.preorder().len(),
            forall|i: int| 0 <= i < old(stack)@.len() ==> final(stack)@[i] == old(stack)@[i],
            forall|i: int|
                0 <= i < self.preorder().len() ==> entry_view(
                    #[trigger] final(stack)@[final(stack)@.len() - 1 - i],
                ) == self.preorder()[i],
        decreases self.size(),
    {
        let ghost s0 = stack@;
        let ghost rp = AVLNode::opt_preorder(self.right);
        let ghost lp = AVLNode::opt_preorder(self.left);
        match &self.right {
            Some(r) => {
                r.stack_pre_order(stack);
                proof {
                    assert(rp == r.preorder());
                }
            },
            None => {},
        }
        let ghost s1 = stack@;
        match &self.left {
            Some(l) => {
                l.stack_pre_order(stack);
                proof {
                    assert(lp == l.preorder());
                }
            },
            None => {},
        }
        let ghost s2 = stack@;
        stack.push((copy_bucket(&self.players), self.score));
        proof {
            let pre = self.preorder();
            assert(pre =~= seq![(bucket_view(self.players@), self.score)] + lp + rp);
            let n = stack@.len();
            assert forall|i: int| 0 <= i < pre.len() implies entry_view(
                #[trigger] stack@[n - 1 - i],
            ) == pre[i] by {
                if i == 0 {
                } else if i < 1 + lp.len() {
                    assert(stack@[n - 1 - i] == s2[s2.len() - 1 - (i - 1)]);
                } else {
                    let j = i - 1 - lp.len();
                    assert(stack@[n - 1 - i] == s2[s1.len() - 1 - j]);
                    assert(s2[s1.len() - 1 - j] == s1[s1.len() - 1 - j]);
                }
            }
        }
    }
}

impl AVLNode {
    /// The scores of an optional subtree in order: left subtree, node, right subtree.
    pub closed spec fn opt_in_order(t: Option<Box<AVLNode>>) -> Seq<u64>
        decreases t,
    {
        match t {
            None => Seq::empty(),
            Some(n) => AVLNode::opt_in_order(n.left) + seq![n.score] + AVLNode::opt_in_order(
                n.right,
            ),
        }
    }

    proof fn lemma_in_order(t: Option<Box<AVLNode>>)
        requires
            AVLNode::opt_wf(t),
        ensures
            forall|i: int|
                0 <= i < AVLNode::opt_in_order(t).len() ==> AVLNode::opt_map(t).contains_key(
                    #[trigger] AVLNode::opt_in_order(t)[i],
                ),
            forall|i: int, j: int|
                0 <= i < j < AVLNode::opt_in_order(t).len() ==> AVLNode::opt_in_order(t)[i]
                    < AVLNode::opt_in_order(t)[j],
        decreases t,
    {
        if let Some(n) = t {
            assert(n.wf());
            AVLNode::lemma_in_order(n.left);
            AVLNode::lemma_in_order(n.right);
            let l = AVLNode::opt_in_order(n.left);
            let r = AVLNode::opt_in_order(n.right);
            let all = AVLNode::opt_in_order(t);
            assert(all == l + seq![n.score] + r);
            assert forall|i: int| 0 <= i < all.len() implies AVLNode::opt_map(t).contains_key(
                #[trigger] all[i],
            ) by {
                if i < l.len() {
                    assert(all[i] == l[i]);
                } else if i > l.len() {
                    assert(all[i] == r[i - l.len() - 1]);
                }
            }
            assert forall|i: int, j: int| 0 <= i < j < all.len() implies all[i] < all[j] by {
                if i < l.len() {
                    assert(all[i] == l[i]);
                    assert(AVLNode::opt_map(n.left).contains_key(l[i]));
                }
                if j > l.len() {
                    assert(all[j] == r[j - l.len() - 1]);
                    assert(AVLNode::opt_map(n.right).contains_key(r[j - l.len() - 1]));
                }
                if i > l.len() {
                    assert(all[i] == r[i - l.len() - 1]);
                }
                if j < l.len() {
                    assert(all[j] == l[j]);
                }
            }
        }
    }
}

/// The scores of `m` above `s`.
pub open spec fn scores_above(m: Map<u64, Seq<Seq<char>>>, s: u64) -> Set<u64> {
    m.dom().filter(|k: u64| k > s)
}

impl AVLNode {
    proof fn lemma_above_counts_scores(t: Option<Box<AVLNode>>, s: u64)
        requires
            AVLNode::opt_wf(t),
        ensures
            AVLNode::opt_map(t).dom().finite(),
            scores_above(AVLNode::opt_map(t), s).finite(),
            AVLNode::opt_above(t, s) == scores_above(AVLNode::opt_map(t), s).len(),
        decreases t,
    {
        match t {
            None => {
                assert(scores_above(AVLNode::opt_map(t), s) =~= Set::<u64>::empty());
            },
            Some(n) => {
                assert(n.wf());
                AVLNode::lemma_above_counts_scores(n.left, s);
                AVLNode::lemma_above_counts_scores(n.right, s);
                let ml = AVLNode::opt_map(n.left);
                let mr = AVLNode::opt_map(n.right);
                let a = scores_above(ml, s);
                let b = scores_above(mr, s);
                let c = if n.score > s { set![n.score] } else { Set::<u64>::empty() };
                assert(AVLNode::opt_map(t).dom() =~= ml.dom().union(mr.dom()).insert(n.score));
                assert(scores_above(AVLNode::opt_map(t), s) =~= a + b + c);
                assert(a.disjoint(b)) by {
                    assert forall|k: u64| a.contains(k) implies !b.contains(k) by {
                        assert(ml.contains_key(k));
                        if b.contains(k) {
                            assert(mr.contains_key(k));
                        }
                    }
                }
                assert((a + b).disjoint(c)) by {
                    assert forall|k: u64| (a + b).contains(k) implies !c.contains(k) by {
                        if a.contains(k) {
                            assert(ml.contains_key(k));
                        } else {
                            assert(mr.contains_key(k));
                        }
                    }
                }
                lemma_set_disjoint_lens(a, b);
                lemma_set_disjoint_lens(a + b, c);
                assert(c.len() == if n.score > s { 1nat } else { 0nat }) by {
                    if n.score > s {
                        assert(c =~= Set::<u64>::empty().insert(n.score));
                    }
                }
            },
        }
    }
}

/// What a bucket keeps after `p` leaves was in it already, and is not `p`.
proof fn lemma_without_contains(b: Seq<Seq<char>>, p: Seq<char>, x: Seq<char>)
    requires
        without(b, p).contains(x),
    ensures
        b.contains(x),
        x != p,
    decreases b.len(),
{
    let rest = without(b.drop_last(), p);
    let j = choose|j: int| 0 <= j < without(b, p).len() && without(b, p)[j] == x;
    if b.last() == p || j < rest.len() {
        assert(rest[j] == x);
        lemma_without_contains(b.drop_last(), p, x);
        let i = choose|i: int| 0 <= i < b.drop_last().len() && b.drop_last()[i] == x;
        assert(b[i] == x);
    } else {
        assert(x == b.last());
        assert(b[b.len() - 1] == x);
    }
}

/// The buckets after each pair of `ps` is added in turn.
pub open spec fn insert_all(m: Map<u64, Seq<Seq<char>>>, ps: Seq<(Seq<char>, u64)>) -> Map<u64, Seq<Seq<char>>>
    decreases ps.len(),
{
    if ps.len() == 0 {
        m
    } else {
        map_with(insert_all(m, ps.drop_last()), ps.last().0, ps.last().1)
    }
}

/// The buckets after each pair of `ps` is removed in turn.
pub open spec fn delete_all(m: Map<u64, Seq<Seq<char>>>, ps: Seq<(Seq<char>, u64)>) -> Map<u64, Seq<Seq<char>>>
    decreases ps.len(),
{
    if ps.len() == 0 {
        m
    } else {
        map_without(delete_all(m, ps.drop_last()), ps.last().0, ps.last().1)
    }
}

/// Every bucket of `m` is non-empty and each of its entries is a pair of `ps`.
pub open spec fn covered(m: Map<u64, Seq<Seq<char>>>, ps: Seq<(Seq<char>, u64)>) -> bool {
    forall|k: u64| #[trigger] m.contains_key(k) ==> m[k].len() > 0 && forall|x: Seq<char>| #[trigger]
        m[k].contains(x) ==> ps.contains((x, k))
}

proof fn lemma_insert_all_covered(ps: Seq<(Seq<char>, u64)>)
    ensures
        covered(insert_all(Map::empty(), ps), ps),
    decreases ps.len(),
{
    if ps.len() > 0 {
        let front = ps.drop_last();
        lemma_insert_all_covered(front);
        let m = insert_all(Map::empty(), front);
        let (p, sc) = ps.last();
        assert forall|k: u64| #[trigger] insert_all(Map::<u64, Seq<Seq<char>>>::empty(), ps).contains_key(k)
            implies insert_all(Map::<u64, Seq<Seq<char>>>::empty(), ps)[k].len() > 0 && forall|x: Seq<char>| #[trigger]
            insert_all(Map::<u64, Seq<Seq<char>>>::empty(), ps)[k].contains(x) ==> ps.contains((x, k)) by {
            let b = insert_all(Map::<u64, Seq<Seq<char>>>::empty(), ps)[k];
            assert forall|x: Seq<char>| #[trigger] b.contains(x) implies ps.contains((x, k)) by {
                let j = choose|j: int| 0 <= j < b.len() && b[j] == x;
                if k == sc && (j == b.len() - 1) {
                    assert(ps[ps.len() - 1] == (x, k));
                } else {
                    assert(m.contains_key(k));
                    assert(m[k][j] == x);
                    assert(m[k].contains(x));
                    assert(front.contains((x, k)));
                    let i = choose|i: int| 0 <= i < front.len() && front[i] == (x, k);
                    assert(ps[i] == (x, k));
                }
            }
        }
    }
}

proof fn lemma_delete_all_leaves(m: Map<u64, Seq<Seq<char>>>, ps: Seq<(Seq<char>, u64)>)
    requires
        forall|k: u64| #[trigger] m.contains_key(k) ==> m[k].len() > 0,
    ensures
        forall|k: u64| #[trigger] delete_all(m, ps).contains_key(k) ==> m.contains_key(k)
            && delete_all(m, ps)[k].len() > 0 && forall|x: Seq<char>| #[trigger]
            delete_all(m, ps)[k].contains(x) ==> m[k].contains(x) && !ps.contains((x, k)),
    decreases ps.len(),
{
    if ps.len() > 0 {
        let front = ps.drop_last();
        lemma_delete_all_leaves(m, front);
        let d = delete_all(m, front);
        let (p, sc) = ps.last();
        assert forall|k: u64| #[trigger] delete_all(m, ps).contains_key(k) implies m.contains_key(k)
            && delete_all(m, ps)[k].len() > 0 && forall|x: Seq<char>| #[trigger]
            delete_all(m, ps)[k].contains(x) ==> m[k].contains(x) && !ps.contains((x, k)) by {
            let b = delete_all(m, ps)[k];
            assert(d.contains_key(k));
            assert forall|x: Seq<char>| #[trigger] b.contains(x) implies m[k].contains(x) && !ps.contains((x, k)) by {
                if k == sc {
                    lemma_without_contains(d[k], p, x);
                }
                assert(d[k].contains(x));
                if ps.contains((x, k)) {
                    let i = choose|i: int| 0 <= i < ps.len() && ps[i] == (x, k);
                    if i < front.len() {
                        assert(front[i] == (x, k));
                    }
                }
            }
        }
    }
}

impl AVLNode {
    proof fn lemma_listing(t: Option<Box<AVLNode>>)
        requires
            AVLNode::opt_wf(t),
        ensures
            forall|j: int|
                0 <= j < AVLNode::opt_listing(t).len() ==> {
                    let e = #[trigger] AVLNode::opt_listing(t)[j];
                    AVLNode::opt_map(t).contains_key(e.1) && AVLNode::opt_map(t)[e.1].contains(e.0)
                },
            forall|k: u64|
                #[trigger] AVLNode::opt_map(t).contains_key(k) ==> exists|j: int|
                    0 <= j < AVLNode::opt_listing(t).len() && AVLNode::opt_listing(t)[j].1 == k,
            forall|a: int, b: int|
                0 <= a < b < AVLNode::opt_listing(t).len() ==> AVLNode::opt_listing(t)[a].1
                    >= AVLNode::opt_listing(t)[b].1,
        decreases t,
    {
        if let Some(n) = t {
            assert(n.wf());
            AVLNode::lemma_listing(n.left);
            AVLNode::lemma_listing(n.right);
            let lr = AVLNode::opt_listing(n.right);
            let bp = bucket_pairs(n.players@, n.score);
            let ll = AVLNode::opt_listing(n.left);
            let all = AVLNode::opt_listing(t);
            let m = AVLNode::opt_map(t);
            assert(all == lr + bp + ll);
            let r0: int = lr.len() as int;
            let b0: int = r0 + bp.len();
            assert forall|j: int| 0 <= j < all.len() implies ({
                let e = #[trigger] all[j];
                m.contains_key(e.1) && m[e.1].contains(e.0)
            }) by {
                if j < r0 {
                    assert(all[j] == lr[j]);
                    let e = lr[j];
                    assert(AVLNode::opt_map(n.right).contains_key(e.1));
                    assert(!AVLNode::opt_map(n.left).contains_key(e.1));
                } else if j < b0 {
                    assert(all[j] == bp[j - r0]);
                    assert(m[n.score] == bucket_view(n.players@));
                    assert(bucket_view(n.players@)[j - r0] == all[j].0);
                } else {
                    assert(all[j] == ll[j - b0]);
                    let e = ll[j - b0];
                    assert(AVLNode::opt_map(n.left).contains_key(e.1));
                    assert(!AVLNode::opt_map(n.right).contains_key(e.1));
                }
            }
            assert forall|k: u64| #[trigger] m.contains_key(k) implies exists|j: int|
                0 <= j < all.len() && all[j].1 == k by {
                if k == n.score {
                    assert(all[r0] == bp[0]);
                } else if AVLNode::opt_map(n.right).contains_key(k) {
                    let j = choose|j: int| 0 <= j < lr.len() && lr[j].1 == k;
                    assert(all[j] == lr[j]);
                } else {
                    assert(AVLNode::opt_map(n.left).contains_key(k));
                    let j = choose|j: int| 0 <= j < ll.len() && ll[j].1 == k;
                    assert(all[b0 + j] == ll[j]);
                }
            }
            assert forall|a: int, b: int| 0 <= a < b < all.len() implies all[a].1 >= all[b].1 by {
                if a < r0 {
                    assert(all[a] == lr[a]);
                    assert(AVLNode::opt_map(n.right).contains_key(lr[a].1));
                } else if a < b0 {
                    assert(all[a] == bp[a - r0]);
                } else {
                    assert(all[a] == ll[a - b0]);
                }
                if b < r0 {
                    assert(all[b] == lr[b]);
                } else if b < b0 {
                    assert(all[b] == bp[b - r0]);
                } else {
                    assert(all[b] == ll[b - b0]);
                    assert(AVLNode::opt_map(n.left).contains_key(ll[b - b0].1));
                }
            }
        }
    }
}

/// The character of a decimal digit.
pub open spec fn digit_char(d: nat) -> char {
    if d == 0 { '0' } else if d == 1 { '1' } else if d == 2 { '2' } else if d == 3 { '3' }
    else if d == 4 { '4' } else if d == 5 { '5' } else if d == 6 { '6' } else if d == 7 { '7' }
    else if d == 8 { '8' } else { '9' }
}

/// The decimal writing of `n`, without leading zeros.
pub open spec fn decimal(n: nat) -> Seq<char>
    decreases n,
{
    if n < 10 {
        seq![digit_char(n)]
    } else {
        decimal(n / 10).push(digit_char(n % 10))
    }
}

/// `n` tab characters.
pub open spec fn tabs(n: nat) -> Seq<char>
    decreases n,
{
    if n == 0 {
        Seq::empty()
    } else {
        tabs((n - 1) as nat).push('\t')
    }
}

/// The names of a bucket separated by a comma and a space.
pub open spec fn joined(b: Seq<Seq<char>>) -> Seq<char>
    decreases b.len(),
{
    if b.len() == 0 {
        Seq::empty()
    } else if b.len() == 1 {
        b[0]
    } else {
        joined(b.drop_last()) + seq![',', ' '] + b.last()
    }
}

fn push_digit(buf: &mut String, d: u64)
    requires
        d < 10,
    ensures
        final(buf)@ == old(buf)@.push(digit_char(d as nat)),
{
    proof {
        reveal_strlit("0"); reveal_strlit("1"); reveal_strlit("2"); reveal_strlit("3");
        reveal_strlit("4"); reveal_strlit("5"); reveal_strlit("6"); reveal_strlit("7");
        reveal_strlit("8"); reveal_strlit("9");
    }
    let ghost b = buf@;
    if d == 0 { buf.append("0"); } else if d == 1 { buf.append("1"); }
    else if d == 2 { buf.append("2"); } else if d == 3 { buf.append("3"); }
    else if d == 4 { buf.append("4"); } else if d == 5 { buf.append("5"); }
    else if d == 6 { buf.append("6"); } else if d == 7 { buf.append("7"); }
    else if d == 8 { buf.append("8"); } else { buf.append("9"); }
    proof {
        assert(buf@ =~= b.push(digit_char(d as nat)));
    }
}

/// Appends the decimal writing of `n`.
fn push_decimal(buf: &mut String, n: u64)
    ensures
        final(buf)@ == old(buf)@ + decimal(n as nat),
    decreases n,
{
    let ghost b = buf@;
    if n >= 10 {
        push_decimal(buf, n / 10);
    }
    push_digit(buf, n % 10);
    proof {
        if n >= 10 {
            assert(buf@ =~= b + decimal(n as nat));
        } else {
            assert(buf@ =~= b + decimal(n as nat));
        }
    }
}

fn push_tabs(buf: &mut String, n: usize)
    ensures
        final(buf)@ == old(buf)@ + tabs(n as nat),
{
    let ghost b = buf@;
    let mut i: usize = 0;
    proof {
        reveal_strlit("\t");
        assert(b + tabs(0) =~= b);
    }
    while i < n
        invariant
            i <= n,
            buf@ == b + tabs(i as nat),
        decreases n - i,
    {
        buf.append("\t");
        i = i + 1;
        proof {
            reveal_strlit("\t");
            assert(buf@ =~= b + tabs(i as nat));
        }
    }
}

fn push_joined(buf: &mut String, players: &Vec<String>)
    ensures
        final(buf)@ == old(buf)@ + joined(bucket_view(players@)),
{
    let ghost b = buf@;
    let ghost v = bucket_view(players@);
    let mut i: usize = 0;
    proof {
        assert(v.take(0) =~= Seq::<Seq<char>>::empty());
        assert(b + joined(v.take(0)) =~= b);
    }
    while i < players.len()
        invariant
            i <= players.len(),
            v == bucket_view(players@),
            buf@ == b + joined(v.take(i as int)),
        decreases players.len() - i,
    {
        let ghost before = buf@;
        if i > 0 {
            buf.append(", ");
        }
        buf.append(players[i].as_str());
        proof {
            reveal_strlit(", ");
            let t = v.take(i + 1);
            assert(t.drop_last() =~= v.take(i as int));
            assert(t.last() == players@[i as int]@);
            if i == 0 {
                assert(joined(t) == t[0]);
                assert(buf@ =~= b + joined(t));
            } else {
                assert(buf@ =~= b + joined(t));
            }
        }
        i = i + 1;
    }
    proof {
        assert(v.take(i as int) =~= v);
    }
}

impl AVLNode {
    /// The first two lines of a node's dump: its players, score, height and node
    /// count below it, then the heading of the right subtree.
    pub closed spec fn head(self, level: nat) -> Seq<char> {
        tabs(level) + joined(bucket_view(self.players@)) + "("@ + decimal(self.score as nat) + ", "@
            + decimal(self.height as nat) + ", "@ + decimal(self.children as nat) + ")\n"@
            + tabs(level) + "right:\n"@
    }

    /// The text of the tree dump of this subtree at depth `level`: for each node, its
    /// players, then score, height and node count below it, then the right and the
    /// left subtree one level deeper.
    pub closed spec fn render(self, level: nat) -> Seq<char>
        decreases self,
    {
        self.head(level) + match self.right {
            Some(r) => r.render(level + 1),
            None => tabs(level) + "\t(no right node)\n"@,
        } + tabs(level) + "left:\n"@ + match self.left {
            Some(l) => l.render(level + 1),
            None => tabs(level) + "\t(no left node)\n"@,
        } + "\n"@
    }

    proof fn lemma_render_parts(self, level: nat, rp: Seq<char>, lp: Seq<char>)
        requires
            rp == (match self.right {
                Some(r) => r.render(level + 1),
                None => tabs(level) + "\t(no right node)\n"@,
            }),
            lp == (match self.left {
                Some(l) => l.render(level + 1),
                None => tabs(level) + "\t(no left node)\n"@,
            }),
        ensures
            self.render(level) == self.head(level) + rp + tabs(level) + "left:\n"@ + lp + "\n"@,
    {
    }

    fn push_head(&self, buf: &mut String, level: usize)
        ensures
            final(buf)@ == old(buf)@ + self.head(level as nat),
    {
        let ghost b = buf@;
        push_tabs(buf, level);
        push_joined(buf, &self.players);
        buf.append("(");
        push_decimal(buf, self.score);
        let ghost b1 = buf@;
        buf.append(", ");
        push_decimal(buf, self.height as u64);
        buf.append(", ");
        push_decimal(buf, self.children as u64);
        let ghost b2 = buf@;
        buf.append(")\n");
        push_tabs(buf, level);
        buf.append("right:\n");
        proof {
            assert(b1 =~= b + tabs(level as nat) + joined(bucket_view(self.players@)) + "("@
                + decimal(self.score as nat));
            assert(b2 =~= b1 + ", "@ + decimal(self.height as nat) + ", "@ + decimal(
                self.children as nat,
            ));
            assert(buf@ =~= b + self.head(level as nat));
        }
    }

    /// Appends the tree dump of this subtree, indented by `level` tabs.
    #[verifier::rlimit(50)]
    pub fn format_string(&self, buf: &mut String, level: usize)
        requires
            level + self.size() <= usize::MAX,
        ensures
            final(buf)@ == old(buf)@ + self.render(level as nat),
        decreases self.size(),
    {
        let ghost b = buf@;
        self.push_head(buf, level);
        let ghost b1 = buf@;
        match &self.right {
            Some(r) => r.format_string(buf, level + 1),
            None => {
                push_tabs(buf, level);
                buf.append("\t(no right node)\n");
            },
        }
        let ghost b2 = buf@;
        proof {
            assert(b2 =~= b1 + (match self.right {
                Some(r) => r.render(level as nat + 1),
                None => tabs(level as nat) + "\t(no right node)\n"@,
            }));
            assert(b2.subrange(b1.len() as int, b2.len() as int) =~= (match self.right {
                Some(r) => r.render(level as nat + 1),
                None => tabs(level as nat) + "\t(no right node)\n"@,
            }));
        }
        push_tabs(buf, level);
        buf.append("left:\n");
        let ghost b3 = buf@;
        match &self.left {
            Some(l) => l.format_string(buf, level + 1),
            None => {
                push_tabs(buf, level);
                buf.append("\t(no left node)\n");
            },
        }
        let ghost b4 = buf@;
        proof {
            assert(b4 =~= b3 + (match self.left {
                Some(l) => l.render(level as nat + 1),
                None => tabs(level as nat) + "\t(no left node)\n"@,
            }));
            assert(b4.subrange(b3.len() as int, b4.len() as int) =~= (match self.left {
                Some(l) => l.render(level as nat + 1),
                None => tabs(level as nat) + "\t(no left node)\n"@,
            }));
        }
        buf.append("\n");
        proof {
            let rp = b2.subrange(b1.len() as int, b2.len() as int);
            let lp = b4.subrange(b3.len() as int, b4.len() as int);
            self.lemma_render_parts(level as nat, rp, lp);
            assert(buf@ =~= b + self.render(level as nat));
        }
    }
}

impl AVLNode {
    /// Height of an optional subtree counted from its shape, not from the caches.
    pub closed spec fn opt_true_height(t: Option<Box<AVLNode>>) -> nat
        decreases t,
    {
        match t {
            None => 0,
            Some(n) => 1 + max_nat(
                AVLNode::opt_true_height(n.left),
                AVLNode::opt_true_height(n.right),
            ),
        }
    }

    /// At every node the children's heights, counted from the shape, differ by at
    /// most one, and the cached node count is the number of nodes below.
    pub closed spec fn opt_balanced_and_counted(t: Option<Box<AVLNode>>) -> bool
        decreases t,
    {
        match t {
            None => true,
            Some(n) => {
                &&& AVLNode::opt_true_height(n.left) <= AVLNode::opt_true_height(n.right) + 1
                &&& AVLNode::opt_true_height(n.right) <= AVLNode::opt_true_height(n.left) + 1
                &&& n.children == AVLNode::opt_size(n.left) + AVLNode::opt_size(n.right)
                &&& AVLNode::opt_balanced_and_counted(n.left)
                &&& AVLNode::opt_balanced_and_counted(n.right)
            },
        }
    }

    proof fn lemma_wf_balanced_and_counted(t: Option<Box<AVLNode>>)
        requires
            AVLNode::opt_wf(t),
        ensures
            AVLNode::opt_height(t) == AVLNode::opt_true_height(t),
            AVLNode::opt_balanced_and_counted(t),
        decreases t,
    {
        if let Some(n) = t {
            assert(n.wf());
            AVLNode::lemma_wf_balanced_and_counted(n.left);
            AVLNode::lemma_wf_balanced_and_counted(n.right);
        }
    }
}

/// A leaderboard: players' scores held in a height-balanced search tree keyed by
/// score, one node per distinct score.
pub struct Leaderboard {
    root: Option<Box<AVLNode>>,
}

impl View for Leaderboard {
    type V = Map<u64, Seq<Seq<char>>>;

    /// The players at each score present, each bucket in the order of insertion.
    closed spec fn view(&self) -> Map<u64, Seq<Seq<char>>> {
        AVLNode::opt_map(self.root)
    }
}

impl Leaderboard {
    /// The tree is a search tree by score with non-empty buckets, exact cached
    /// heights and counts, and children's heights differing by at most one.
    pub closed spec fn wf(self) -> bool {
        AVLNode::opt_wf(self.root)
    }

    /// Number of nodes, that is of distinct scores held.
    pub closed spec fn node_count(self) -> nat {
        AVLNode::opt_size(self.root)
    }

    /// Every (player, score) pair, highest score first, each bucket in its order.
    pub closed spec fn listing(self) -> Seq<(Seq<char>, u64)> {
        AVLNode::opt_listing(self.root)
    }

    /// Every (bucket, score) pair in pre-order: node, left subtree, right subtree.
    pub closed spec fn preorder(self) -> Seq<(Seq<Seq<char>>, u64)> {
        AVLNode::opt_preorder(self.root)
    }

    /// Number of nodes whose score is above `score`.
    pub closed spec fn above(self, score: u64) -> nat {
        AVLNode::opt_above(self.root, score)
    }

    /// The scores of the nodes in order: left subtree, node, right subtree.
    pub closed spec fn in_order(self) -> Seq<u64> {
        AVLNode::opt_in_order(self.root)
    }

    /// Every node's children differ in height (counted from the shape) by at most
    /// one, and every cached node count is exact.
    pub closed spec fn balanced_and_counted(self) -> bool {
        AVLNode::opt_balanced_and_counted(self.root)
    }

    /// The text of the tree dump.
    pub closed spec fn rendered(self) -> Seq<char> {
        match self.root {
            None => "None"@,
            Some(r) => r.render(0),
        }
    }

    /// Whether the tree has no node.
    pub closed spec fn is_empty_tree(self) -> bool {
        self.root is None
    }

    /// Search-tree order: an in-order walk of a well-formed leaderboard meets strictly
    /// increasing scores, each of them a score that the leaderboard holds.
    pub proof fn lemma_in_order_increasing(lb: Leaderboard)
        requires
            lb.wf(),
        ensures
            forall|i: int, j: int|
                0 <= i < j < lb.in_order().len() ==> lb.in_order()[i] < lb.in_order()[j],
            forall|i: int| 0 <= i < lb.in_order().len() ==> lb@.contains_key(#[trigger] lb.in_order()[i]),
    {
        AVLNode::lemma_in_order(lb.root);
    }

    /// A rank counts distinct scores: the number of nodes above `score`, which
    /// `rank_of` adds one to, is the number of scores held above it.
    pub proof fn lemma_rank_counts_scores(lb: Leaderboard, score: u64)
        requires
            lb.wf(),
        ensures
            lb.above(score) == scores_above(lb@, score).len(),
    {
        AVLNode::lemma_above_counts_scores(lb.root, score);
    }

    /// Round trip: adding the pairs of `ps` in turn to an empty leaderboard and then
    /// removing them in turn leaves it empty.
    pub proof fn lemma_round_trip(ps: Seq<(Seq<char>, u64)>)
        ensures
            delete_all(insert_all(Map::empty(), ps), ps) == Map::<u64, Seq<Seq<char>>>::empty(),
    {
        let m = insert_all(Map::<u64, Seq<Seq<char>>>::empty(), ps);
        lemma_insert_all_covered(ps);
        lemma_delete_all_leaves(m, ps);
        let d = delete_all(m, ps);
        assert forall|k: u64| !#[trigger] d.contains_key(k) by {
            if d.contains_key(k) {
                assert(d[k][0] == d[k][0]);
                assert(d[k].contains(d[k][0]));
            }
        }
        assert(d =~= Map::<u64, Seq<Seq<char>>>::empty());
    }

    /// Rank and the full listing agree: the entry at position `i` of the listing
    /// (highest score first) is on the leaderboard, and the scores above it, whose
    /// count `rank_of` adds one to, are exactly the distinct scores met before it.
    pub proof fn lemma_rank_listing(lb: Leaderboard, i: int)
        requires
            lb.wf(),
            0 <= i < lb.listing().len(),
        ensures
            lb@.contains_key(lb.listing()[i].1),
            lb@[lb.listing()[i].1].contains(lb.listing()[i].0),
            scores_above(lb@, lb.listing()[i].1) == Set::new(
                |k: u64|
                    k != lb.listing()[i].1 && exists|j: int| 0 <= j < i && lb.listing()[j].1 == k,
            ),
    {
        AVLNode::lemma_listing(lb.root);
        let l = lb.listing();
        let sc = l[i].1;
        let want = Set::new(|k: u64| k != sc && exists|j: int| 0 <= j < i && l[j].1 == k);
        assert forall|k: u64| scores_above(lb@, sc).contains(k) implies want.contains(k) by {
            assert(lb@.contains_key(k));
            let j = choose|j: int| 0 <= j < l.len() && l[j].1 == k;
            if j >= i {
                assert(l[i].1 >= l[j].1);
            }
        }
        assert forall|k: u64| want.contains(k) implies scores_above(lb@, sc).contains(k) by {
            let j = choose|j: int| 0 <= j < i && l[j].1 == k;
            assert(l[j].1 >= l[i].1);
            let e = l[j];
            assert(lb@.contains_key(e.1));
        }
        assert(scores_above(lb@, sc) =~= want);
    }

    /// Balance and size accounting: in a well-formed leaderboard, which every
    /// operation keeps well formed, the two children of every node differ in height
    /// by at most one, heights counted afresh from the shape, and every node's cached
    /// count is the number of nodes in its two subtrees.
    pub proof fn lemma_balanced_and_counted(lb: Leaderboard)
        requires
            lb.wf(),
        ensures
            lb.balanced_and_counted(),
    {
        AVLNode::lemma_wf_balanced_and_counted(lb.root);
    }

    /// The full listing follows the buckets: each entry is a player in the bucket of
    /// its score, every score held has an entry, and scores never rise along it.
    pub proof fn lemma_listing_follows_view(lb: Leaderboard)
        requires
            lb.wf(),
        ensures
            forall|j: int|
                0 <= j < lb.listing().len() ==> {
                    let e = #[trigger] lb.listing()[j];
                    lb@.contains_key(e.1) && lb@[e.1].contains(e.0)
                },
            forall|k: u64| #[trigger]
                lb@.contains_key(k) ==> exists|j: int| 0 <= j < lb.listing().len() && lb.listing()[j].1 == k,
            forall|a: int, b: int|
                0 <= a < b < lb.listing().len() ==> lb.listing()[a].1 >= lb.listing()[b].1,
    {
        AVLNode::lemma_listing(lb.root);
        assert forall|k: u64| #[trigger] lb@.contains_key(k) implies exists|j: int|
            0 <= j < lb.listing().len() && lb.listing()[j].1 == k by {
            assert(AVLNode::opt_map(lb.root).contains_key(k));
            let l = AVLNode::opt_listing(lb.root);
            let j = choose|j: int| 0 <= j < l.len() && l[j].1 == k;
            assert(lb.listing()[j].1 == k);
        }
    }

    /// An empty leaderboard.
    pub fn new() -> (r: Self)
        ensures
            r.wf(),
            r@ == Map::<u64, Seq<Seq<char>>>::empty(),
            r.is_empty_tree(),
    {
        Leaderboard { root: None }
    }

    /// The tree dump: each node with its players, score, height and node count
    /// below it, subtrees indented; "None" for an empty leaderboard.
    pub fn dump(&self) -> (r: String)
        requires
            self.wf(),
        ensures
            r@ == self.rendered(),
    {
        let mut buf = String::new();
        match &self.root {
            Some(r) => {
                proof {
                    assert(r.cached());
                }
                r.format_string(&mut buf, 0);
                proof {
                    assert(buf@ =~= r.render(0));
                }
            },
            None => {
                buf.append("None");
            },
        }
        buf
    }

    /// Number of nodes, that is of distinct scores held.
    pub fn len(&self) -> (r: usize)
        requires
            self.wf(),
        ensures
            r == self.node_count(),
    {
        match &self.root {
            Some(r) => {
                proof {
                    assert(r.cached());
                }
                r.children + 1
            },
            None => 0,
        }
    }

    /// Adds `player` at `score`: to the existing bucket, or in a new node.
    pub fn insert(&mut self, player: &str, score: u64)
        requires
            old(self).wf(),
            old(self).node_count() < usize::MAX,
        ensures
            final(self).wf(),
            final(self)@ == map_with(old(self)@, player@, score),
            final(self).node_count() == old(self).node_count() + if old(self)@.contains_key(score) {
                0nat
            } else {
                1nat
            },
    {
        match self.root.take() {
            Some(mut r) => {
                r.insert(player, score);
                self.root = Some(r);
            },
            None => {
                self.root = Some(Box::new(AVLNode::new(player, score)));
                proof {
                    assert(AVLNode::opt_map(None) =~= Map::<u64, Seq<Seq<char>>>::empty());
                }
            },
        }
    }

    /// Removes `player` from every bucket; nodes left empty are deleted.
    pub fn delete_player(&mut self, player: &str)
        requires
            old(self).wf(),
        ensures
            final(self).wf(),
            final(self)@ == map_without_player(old(self)@, player@),
            final(self).is_empty_tree() == (final(self)@ == Map::<u64, Seq<Seq<char>>>::empty()),
    {
        match self.root.take() {
            Some(mut r) => {
                if !r.delete_player(player) {
                    self.root = Some(r);
                    proof {
                        assert(r.map_of().contains_key(r.key()));
                    }
                }
            },
            None => {
                proof {
                    assert(map_without_player(old(self)@, player@) =~= old(self)@);
                }
            },
        }
    }

    /// Removes `player` from the bucket at `score`; a node left empty is deleted.
    /// When the pair is not present the leaderboard is left exactly as it was.
    pub fn delete_player_score(&mut self, player: &str, score: u64)
        requires
            old(self).wf(),
        ensures
            final(self).wf(),
            final(self)@ == map_without(old(self)@, player@, score),
            !(old(self)@.contains_key(score) && old(self)@[score].contains(player@)) ==> *final(self)
                == *old(self),
            final(self).is_empty_tree() == (final(self)@ == Map::<u64, Seq<Seq<char>>>::empty()),
    {
        match self.root.take() {
            Some(mut r) => {
                if !r.delete_player_score(player, score) {
                    self.root = Some(r);
                    proof {
                        assert(r.map_of().contains_key(r.key()));
                    }
                }
            },
            None => {},
        }
    }

    /// The `n` best (player, score) pairs: highest score first, each bucket in the
    /// order of insertion; all of them when there are fewer than `n`.
    pub fn top_n_players(&self, n: usize) -> (r: Vec<(String, u64)>)
        ensures
            pairs_view(r@) == first_n(self.listing(), n as nat),
    {
        match &self.root {
            Some(r) => r.top_n_players(n),
            None => Vec::new(),
        }
    }

    /// The rank of `player` at `score`: one more than the number of distinct scores
    /// above `score`, or none when the player is not at that score.
    pub fn rank_of(&self, player: &str, score: u64) -> (r: Option<usize>)
        requires
            self.wf(),
        ensures
            r is Some == (self@.contains_key(score) && self@[score].contains(player@)),
            r is Some ==> r.unwrap() == 1 + scores_above(self@, score).len(),
    {
        proof {
            AVLNode::lemma_above_counts_scores(self.root, score);
        }
        match &self.root {
            Some(r) => {
                proof {
                    assert(r.size() <= usize::MAX);
                }
                r.rank_of(player, score, 0)
            },
            None => None,
        }
    }

    /// The (bucket, score) pairs in pre-order: node, then left subtree, then right.
    pub fn pre_order(&self) -> (r: LeaderboardIter)
        ensures
            r.remaining() == self.preorder(),
    {
        let mut stack: Vec<(Vec<String>, u64)> = Vec::new();
        match &self.root {
            Some(r) => r.stack_pre_order(&mut stack),
            None => {},
        }
        let it = LeaderboardIter { stack };
        proof {
            assert(it.remaining() =~= self.preorder());
        }
        it
    }
}

/// The entries of a leaderboard in pre-order, handed out one at a time.
pub struct LeaderboardIter {
    stack: Vec<(Vec<String>, u64)>,
}

impl LeaderboardIter {
    /// The entries not yet handed out, next one first.
    pub closed spec fn remaining(self) -> Seq<(Seq<Seq<char>>, u64)> {
        Seq::new(self.stack@.len(), |i: int| entry_view(self.stack@[self.stack@.len() - 1 - i]))
    }

    /// Hands out the next entry, or none when all have been.
    pub fn next(&mut self) -> (r: Option<(Vec<String>, u64)>)
        ensures
            r is None == (old(self).remaining().len() == 0),
            r is Some ==> entry_view(r.unwrap()) == old(self).remaining()[0],
            r is Some ==> final(self).remaining() == old(self).remaining().drop_first(),
            r is None ==> final(self).remaining() == old(self).remaining(),
    {
        let r = self.stack.pop();
        proof {
            assert(self.remaining() =~= old(self).remaining().drop_first() || r is None);
        }
        r
    }
}

} // verus!
