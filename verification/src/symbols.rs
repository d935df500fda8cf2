//! The symbol equivalence registry: a union-find over [`SymbolRef`].
//!
//! Linking merges bindings that a chain of re-exports proves to be one
//! binding. The registry keeps, for every registered symbol, a link towards
//! the representative of its class. `find` compresses the paths it walks and
//! `union` links the root of lower rank below the other.
use crate::ids::{ModuleId, SymbolId, SymbolRef};
use vstd::prelude::*;

verus! {

/// Whether the tables `parents` have a slot for `x`.
spec fn slot(parents: Seq<Vec<SymbolRef>>, x: SymbolRef) -> bool {
    x.owner.0 < parents.len() && x.symbol.0 < parents[x.owner.0 as int]@.len()
}

/// The link that `x`'s slot holds.
spec fn up(parents: Seq<Vec<SymbolRef>>, x: SymbolRef) -> SymbolRef {
    parents[x.owner.0 as int]@[x.symbol.0 as int]
}

/// Every link stays inside the tables, and `depths` falls along every link
/// that leaves its slot: the links form a forest.
spec fn forest(parents: Seq<Vec<SymbolRef>>, depths: spec_fn(SymbolRef) -> nat) -> bool {
    &&& forall|x: SymbolRef| slot(parents, x) ==> slot(parents, #[trigger] up(parents, x))
    &&& forall|x: SymbolRef|
        slot(parents, x) && #[trigger] up(parents, x) != x ==> depths(up(parents, x)) < depths(x)
}

/// The root above `x`; `x` itself where it has no slot.
spec fn root(parents: Seq<Vec<SymbolRef>>, depths: spec_fn(SymbolRef) -> nat, x: SymbolRef) -> SymbolRef
    decreases depths(x),
    when forest(parents, depths)
{
    if slot(parents, x) && up(parents, x) != x {
        root(parents, depths, up(parents, x))
    } else {
        x
    }
}

/// `after` has the slots and links of `before`, but for `c`, which links to `p`.
spec fn relinked(
    before: Seq<Vec<SymbolRef>>,
    after: Seq<Vec<SymbolRef>>,
    c: SymbolRef,
    p: SymbolRef,
) -> bool {
    &&& after.len() == before.len()
    &&& forall|m: int| 0 <= m < before.len() ==> (#[trigger] after[m])@.len() == before[m]@.len()
    &&& forall|x: SymbolRef|
        slot(before, x) ==> #[trigger] up(after, x) == if x == c {
            p
        } else {
            up(before, x)
        }
}

/// The root above a symbol has a slot if the symbol has one, links to
/// itself, is its own root, and lies less deep than any other symbol below it.
proof fn lemma_root(parents: Seq<Vec<SymbolRef>>, depths: spec_fn(SymbolRef) -> nat, x: SymbolRef)
    requires
        forest(parents, depths),
    ensures
        slot(parents, x) ==> slot(parents, root(parents, depths, x)),
        slot(parents, x) ==> up(parents, root(parents, depths, x)) == root(parents, depths, x),
        root(parents, depths, root(parents, depths, x)) == root(parents, depths, x),
        root(parents, depths, x) != x ==> depths(root(parents, depths, x)) < depths(x),
    decreases depths(x),
{
    if slot(parents, x) && up(parents, x) != x {
        lemma_root(parents, depths, up(parents, x));
    }
}

/// Pointing `c` at its own root changes no root.
proof fn lemma_compress(
    before: Seq<Vec<SymbolRef>>,
    after: Seq<Vec<SymbolRef>>,
    depths: spec_fn(SymbolRef) -> nat,
    c: SymbolRef,
    x: SymbolRef,
)
    requires
        forest(before, depths),
        forest(after, depths),
        slot(before, c),
        relinked(before, after, c, root(before, depths, c)),
    ensures
        root(after, depths, x) == root(before, depths, x),
    decreases depths(x),
{
    lemma_root(before, depths, c);
    let r = root(before, depths, c);
    if slot(before, x) {
        if x == c {
            if r != c {
                assert(slot(before, r));
                assert(up(after, r) == r);
                assert(root(after, depths, r) == r);
            }
        } else if up(before, x) != x {
            lemma_compress(before, after, depths, c, up(before, x));
        }
    } else {
        assert(!slot(after, x));
    }
}

/// Pointing the root `c` at another root `p` moves the class of `c` below `p`
/// and changes no other root.
proof fn lemma_link(
    before: Seq<Vec<SymbolRef>>,
    depths: spec_fn(SymbolRef) -> nat,
    after: Seq<Vec<SymbolRef>>,
    lifted: spec_fn(SymbolRef) -> nat,
    c: SymbolRef,
    p: SymbolRef,
    x: SymbolRef,
)
    requires
        forest(before, depths),
        forest(after, lifted),
        slot(before, c),
        slot(before, p),
        up(before, c) == c,
        up(before, p) == p,
        c != p,
        relinked(before, after, c, p),
    ensures
        root(after, lifted, x) == if root(before, depths, x) == c {
            p
        } else {
            root(before, depths, x)
        },
    decreases depths(x),
{
    if slot(before, x) {
        if x == c {
            assert(up(after, p) == p);
            assert(root(after, lifted, p) == p);
        } else if up(before, x) != x {
            lemma_link(before, depths, after, lifted, c, p, up(before, x));
        }
    } else {
        assert(!slot(after, x));
    }
}

/// The registry of symbol equivalences.
pub struct Symbols {
    /// For each module, for each of its symbols, the link towards the
    /// representative; a representative links to itself.
    parents: Vec<Vec<SymbolRef>>,
    /// For each symbol, the rank by which `union` decides which of two
    /// roots goes below the other.
    ranks: Vec<Vec<usize>>,
    /// A measure that falls along every link: the reason why following the
    /// links ends.
    depths: Ghost<spec_fn(SymbolRef) -> nat>,
}

impl Symbols {
    /// Whether `x` is a symbol of the registry.
    pub closed spec fn contains(&self, x: SymbolRef) -> bool {
        slot(self.parents@, x)
    }

    /// The registry's invariant.
    pub closed spec fn wf(&self) -> bool {
        &&& forest(self.parents@, self.depths@)
        &&& self.ranks@.len() == self.parents@.len()
        &&& forall|m: int|
            0 <= m < self.parents@.len() ==> (#[trigger] self.ranks@[m])@.len()
                == self.parents@[m]@.len()
    }

    /// The representative of the class of `x`. A symbol that the registry
    /// does not hold is alone in its class.
    pub closed spec fn rep(&self, x: SymbolRef) -> SymbolRef {
        root(self.parents@, self.depths@, x)
    }

    /// Whether `a` and `b` denote one binding.
    pub open spec fn same(&self, a: SymbolRef, b: SymbolRef) -> bool {
        self.rep(a) == self.rep(b)
    }

    /// A representative is a symbol of the registry and represents itself.
    pub proof fn lemma_rep(&self, x: SymbolRef)
        requires
            self.wf(),
        ensures
            self.contains(x) ==> self.contains(self.rep(x)),
            !self.contains(x) ==> self.rep(x) == x,
            self.rep(self.rep(x)) == self.rep(x),
    {
        lemma_root(self.parents@, self.depths@, x);
    }

    /// A registry of `symbol_counts[m]` symbols for each module `m`, each
    /// symbol alone in its class.
    pub fn new(symbol_counts: &Vec<usize>) -> (s: Symbols)
        ensures
            s.wf(),
            forall|x: SymbolRef|
                #[trigger] s.contains(x) <==> x.owner.0 < symbol_counts@.len() && x.symbol.0
                    < symbol_counts@[x.owner.0 as int],
            forall|x: SymbolRef| #[trigger] s.rep(x) == x,
    {
        let mut parents: Vec<Vec<SymbolRef>> = Vec::new();
        let mut ranks: Vec<Vec<usize>> = Vec::new();
        let mut m: usize = 0;
        while m < symbol_counts.len()
            invariant
                m <= symbol_counts@.len(),
                parents@.len() == m,
                ranks@.len() == m,
                forall|i: int|
                    0 <= i < m ==> (#[trigger] parents@[i])@.len() == symbol_counts@[i],
                forall|i: int| 0 <= i < m ==> (#[trigger] ranks@[i])@.len() == symbol_counts@[i],
                forall|i: int, k: int|
                    0 <= i < m && 0 <= k < symbol_counts@[i] ==> (#[trigger] parents@[i]@[k])
                        == (SymbolRef { owner: ModuleId(i as usize), symbol: SymbolId(k as usize) }),
            decreases symbol_counts@.len() - m,
        {
            let count = symbol_counts[m];
            let mut row: Vec<SymbolRef> = Vec::new();
            let mut rank_row: Vec<usize> = Vec::new();
            let mut k: usize = 0;
            while k < count
                invariant
                    k <= count,
                    row@.len() == k,
                    rank_row@.len() == k,
                    forall|j: int|
                        0 <= j < k ==> (#[trigger] row@[j]) == (SymbolRef {
                            owner: ModuleId(m),
                            symbol: SymbolId(j as usize),
                        }),
                decreases count - k,
            {
                row.push(SymbolRef { owner: ModuleId(m), symbol: SymbolId(k) });
                rank_row.push(0);
                k = k + 1;
            }
            parents.push(row);
            ranks.push(rank_row);
            m = m + 1;
        }
        let s = Symbols { parents, ranks, depths: Ghost(|x: SymbolRef| 0nat) };
        proof {
            assert forall|x: SymbolRef| slot(s.parents@, x) implies #[trigger] up(s.parents@, x)
                == x by {
                assert(s.parents@[x.owner.0 as int]@[x.symbol.0 as int] == x);
            }
            assert(forest(s.parents@, s.depths@));
            assert forall|x: SymbolRef| #[trigger] s.rep(x) == x by {
                assert(root(s.parents@, s.depths@, x) == x);
            }
        }
        s
    }

    /// Whether `x` is a symbol of the registry.
    pub fn is_registered(&self, x: SymbolRef) -> (b: bool)
        ensures
            b == self.contains(x),
    {
        x.owner.0 < self.parents.len() && x.symbol.0 < self.parents[x.owner.0].len()
    }

    /// The link that the slot of `x` holds.
    fn link_of(&self, x: SymbolRef) -> (p: SymbolRef)
        requires
            self.contains(x),
        ensures
            p == up(self.parents@, x),
    {
        self.parents[x.owner.0][x.symbol.0]
    }

    /// Points the slot of `c` at `p`.
    fn set_link(&mut self, c: SymbolRef, p: SymbolRef)
        requires
            old(self).contains(c),
        ensures
            relinked(old(self).parents@, final(self).parents@, c, p),
            final(self).ranks == old(self).ranks,
            final(self).depths == old(self).depths,
    {
        self.parents[c.owner.0][c.symbol.0] = p;
    }

    /// The representative of the class of `a`. The paths walked are
    /// compressed; no class changes.
    pub fn find(&mut self, a: SymbolRef) -> (r: SymbolRef)
        requires
            old(self).wf(),
            old(self).contains(a),
        ensures
            final(self).wf(),
            r == old(self).rep(a),
            final(self).contains(r),
            forall|x: SymbolRef| #[trigger] final(self).rep(x) == old(self).rep(x),
            forall|x: SymbolRef| #[trigger] final(self).contains(x) == old(self).contains(x),
    {
        let mut r = a;
        let mut next = self.link_of(r);
        while next != r
            invariant
                self.wf(),
                self.contains(r),
                next == up(self.parents@, r),
                self.rep(r) == self.rep(a),
            decreases (self.depths@)(r),
        {
            r = next;
            next = self.link_of(r);
        }
        proof {
            lemma_root(self.parents@, self.depths@, a);
        }
        let mut cur = a;
        while cur != r
            invariant
                self.wf(),
                self.contains(cur),
                self.contains(r),
                self.rep(cur) == r,
                r == old(self).rep(a),
                self.depths == old(self).depths,
                forall|x: SymbolRef| #[trigger] self.rep(x) == old(self).rep(x),
                forall|x: SymbolRef| #[trigger] self.contains(x) == old(self).contains(x),
            decreases (self.depths@)(cur),
        {
            let ghost prev = *self;
            let ghost before = self.parents@;
            let ghost depths = self.depths@;
            let above = self.link_of(cur);
            proof {
                lemma_root(before, depths, cur);
            }
            self.set_link(cur, r);
            proof {
                let after = self.parents@;
                assert forall|x: SymbolRef| #[trigger] self.contains(x) == old(self).contains(
                    x,
                ) by {
                    assert(prev.contains(x) == old(self).contains(x));
                }
                assert(forest(after, depths)) by {
                    assert forall|x: SymbolRef| slot(after, x) implies slot(
                        after,
                        #[trigger] up(after, x),
                    ) by {
                        assert(slot(before, x));
                        assert(slot(before, up(before, x)));
                    }
                    assert forall|x: SymbolRef|
                        slot(after, x) && #[trigger] up(after, x) != x implies depths(up(after, x))
                        < depths(x) by {
                        assert(slot(before, x));
                    }
                }
                assert forall|x: SymbolRef| #[trigger] self.rep(x) == old(self).rep(x) by {
                    lemma_compress(before, after, depths, cur, x);
                    assert(prev.rep(x) == old(self).rep(x));
                }
                assert(prev.rep(above) == prev.rep(cur));
            }
            cur = above;
        }
        r
    }

    /// Links the root `c` below the root `p`.
    fn link(&mut self, c: SymbolRef, p: SymbolRef)
        requires
            old(self).wf(),
            old(self).contains(c),
            old(self).contains(p),
            old(self).rep(c) == c,
            old(self).rep(p) == p,
            c != p,
        ensures
            final(self).wf(),
            final(self).ranks == old(self).ranks,
            forall|x: SymbolRef| #[trigger] final(self).contains(x) == old(self).contains(x),
            forall|x: SymbolRef|
                #[trigger] final(self).rep(x) == if old(self).rep(x) == c {
                    p
                } else {
                    old(self).rep(x)
                },
    {
        let ghost before = self.parents@;
        let ghost depths = self.depths@;
        proof {
            lemma_root(before, depths, c);
            lemma_root(before, depths, p);
        }
        self.set_link(c, p);
        let ghost lifted = |x: SymbolRef|
            if root(before, depths, x) == c {
                (depths(x) + depths(p) + 1) as nat
            } else {
                depths(x)
            };
        self.depths = Ghost(lifted);
        proof {
            let after = self.parents@;
            assert(forest(after, lifted)) by {
                assert forall|x: SymbolRef| slot(after, x) implies slot(
                    after,
                    #[trigger] up(after, x),
                ) by {
                    assert(slot(before, x));
                    assert(slot(before, up(before, x)));
                }
                assert forall|x: SymbolRef|
                    slot(after, x) && #[trigger] up(after, x) != x implies lifted(up(after, x))
                    < lifted(x) by {
                    assert(slot(before, x));
                    if x != c {
                        assert(root(before, depths, x) == root(before, depths, up(before, x)));
                    }
                }
            }
            assert forall|x: SymbolRef|
                #[trigger] self.rep(x) == if old(self).rep(x) == c {
                    p
                } else {
                    old(self).rep(x)
                } by {
                lemma_link(before, depths, after, lifted, c, p, x);
            }
        }
    }

    /// Merges the classes of `a` and `b`.
    pub fn union(&mut self, a: SymbolRef, b: SymbolRef)
        requires
            old(self).wf(),
            old(self).contains(a),
            old(self).contains(b),
        ensures
            final(self).wf(),
            forall|x: SymbolRef| #[trigger] final(self).contains(x) == old(self).contains(x),
            forall|x: SymbolRef, y: SymbolRef|
                #[trigger] final(self).same(x, y) == (old(self).same(x, y) || (old(self).same(x, a)
                    && old(self).same(y, b)) || (old(self).same(x, b) && old(self).same(y, a))),
    {
        let ra = self.find(a);
        let ghost first = *self;
        let rb = self.find(b);
        let ghost found = *self;
        proof {
            assert(first.contains(b) == old(self).contains(b));
            assert(first.rep(b) == old(self).rep(b));
            assert(found.contains(ra) == first.contains(ra));
            assert forall|x: SymbolRef| #[trigger] found.rep(x) == old(self).rep(x) by {
                assert(first.rep(x) == old(self).rep(x));
            }
            assert forall|x: SymbolRef| #[trigger] found.contains(x) == old(self).contains(x) by {
                assert(first.contains(x) == old(self).contains(x));
            }
            found.lemma_rep(a);
            found.lemma_rep(b);
            assert(found.rep(ra) == ra && found.rep(rb) == rb);
        }
        if ra != rb {
            let rank_a = self.ranks[ra.owner.0][ra.symbol.0];
            let rank_b = self.ranks[rb.owner.0][rb.symbol.0];
            let ghost below = if rank_a < rank_b { ra } else { rb };
            let ghost above = if rank_a < rank_b { rb } else { ra };
            if rank_a < rank_b {
                self.link(ra, rb);
            } else {
                self.link(rb, ra);
            }
            let ghost joined = *self;
            if rank_a == rank_b && rank_a < usize::MAX {
                self.ranks[ra.owner.0][ra.symbol.0] = rank_a + 1;
            }
            proof {
                assert forall|x: SymbolRef| #[trigger] self.contains(x) == old(self).contains(
                    x,
                ) by {
                    assert(joined.contains(x) == found.contains(x));
                    assert(found.contains(x) == old(self).contains(x));
                }
                assert forall|x: SymbolRef|
                    #[trigger] self.rep(x) == if found.rep(x) == below {
                        above
                    } else {
                        found.rep(x)
                    } by {
                    assert(joined.rep(x) == if found.rep(x) == below {
                        above
                    } else {
                        found.rep(x)
                    });
                }
                assert forall|x: SymbolRef, y: SymbolRef|
                    #[trigger] self.same(x, y) == (old(self).same(x, y) || (old(self).same(x, a)
                        && old(self).same(y, b)) || (old(self).same(x, b) && old(self).same(
                        y,
                        a,
                    ))) by {
                    assert(found.rep(x) == old(self).rep(x));
                    assert(found.rep(y) == old(self).rep(y));
                    assert(found.rep(a) == old(self).rep(a));
                    assert(found.rep(b) == old(self).rep(b));
                    assert(self.rep(x) == if found.rep(x) == below {
                        above
                    } else {
                        found.rep(x)
                    });
                    assert(self.rep(y) == if found.rep(y) == below {
                        above
                    } else {
                        found.rep(y)
                    });
                }
            }
        } else {
            proof {
                assert forall|x: SymbolRef, y: SymbolRef|
                    #[trigger] self.same(x, y) == (old(self).same(x, y) || (old(self).same(x, a)
                        && old(self).same(y, b)) || (old(self).same(x, b) && old(self).same(
                        y,
                        a,
                    ))) by {
                    assert(found.rep(x) == old(self).rep(x));
                    assert(found.rep(y) == old(self).rep(y));
                    assert(found.rep(a) == old(self).rep(a));
                    assert(found.rep(b) == old(self).rep(b));
                }
            }
        }
    }
}

} // verus!
