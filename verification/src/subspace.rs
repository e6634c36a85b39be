use vstd::prelude::*;

verus! {

use crate::block::IpBlock;
use crate::block::lemma_halves;
use crate::block::lemma_end_bound;
use crate::block::lemma_sub_in_half;
use crate::block::lemma_contains_antisym;
use crate::block::lemma_first_sub;

/// State of one node of an allocation tree.
#[derive(Debug, PartialEq, Eq, Structural, Clone, Copy)]
pub enum State {
    /// No allocation anywhere under this node.
    Free,
    /// Exactly this node's block is allocated.
    Allocated,
    /// The block is divided in two; the children carry the allocations.
    Split,
}

/// One node of a binary buddy tree over an address block.  A `Split` node
/// owns exactly two children covering the low and the high half of its
/// block; `Free` and `Allocated` nodes have no children.
pub struct Subspace {
    pub cidr: IpBlock,
    pub name: Option<String>,
    pub state: State,
    pub low: Option<Box<Subspace>>,
    pub high: Option<Box<Subspace>>,
}

/// An allocated block together with its optional name, at the level of
/// specifications.
pub type Rec = (IpBlock, Option<Seq<char>>);

/// The view of an owned optional name.
pub open spec fn name_view(n: Option<String>) -> Option<Seq<char>> {
    match n {
        Some(s) => Some(s@),
        None => None,
    }
}

/// The view of a borrowed optional name.
pub open spec fn name_arg_view(n: Option<&str>) -> Option<Seq<char>> {
    match n {
        Some(s) => Some(s@),
        None => None,
    }
}

impl Subspace {
    /// Structural well-formedness: blocks are well-formed, a node is
    /// `Split` exactly when it has children, and the children's blocks are
    /// the two halves of the parent's.
    pub open spec fn wf(self) -> bool
        decreases self,
    {
        &&& self.cidr.wf()
        &&& match self.state {
            State::Split => {
                &&& self.cidr.host_bits() >= 1
                &&& self.name is None
                &&& self.low matches Some(l) && l.cidr == self.cidr.low_half() && l.wf()
                &&& self.high matches Some(h) && h.cidr == self.cidr.high_half() && h.wf()
            },
            State::Free => self.low is None && self.high is None && self.name is None,
            State::Allocated => self.low is None && self.high is None,
        }
    }

    /// The allocated blocks under this node with their names, in
    /// depth-first, low-before-high order.
    pub open spec fn recs(self) -> Seq<Rec>
        decreases self,
    {
        match self.state {
            State::Allocated => seq![(self.cidr, name_view(self.name))],
            State::Free => Seq::empty(),
            State::Split => match (self.low, self.high) {
                (Some(l), Some(h)) => l.recs() + h.recs(),
                _ => Seq::empty(),
            },
        }
    }

    /// The block that an allocate-smallest-fit request for host width `n`
    /// would return under this node, if any: the lowest-addressed free
    /// sub-block of that width, descending low before high.
    pub open spec fn lowest_free(self, n: u8) -> Option<IpBlock>
        decreases self,
    {
        match self.state {
            State::Free => if n as nat <= self.cidr.host_bits() {
                Some(self.cidr.first_sub(n))
            } else {
                None
            },
            State::Allocated => None,
            State::Split => match (self.low, self.high) {
                (Some(l), Some(h)) => if l.lowest_free(n) is Some {
                    l.lowest_free(n)
                } else {
                    h.lowest_free(n)
                },
                _ => None,
            },
        }
    }

    /// The largest host width a free node under this node offers, or -1 if
    /// none is free.
    pub open spec fn max_free(self) -> int
        decreases self,
    {
        match self.state {
            State::Free => self.cidr.host_bits() as int,
            State::Allocated => -1,
            State::Split => match (self.low, self.high) {
                (Some(l), Some(h)) => if l.max_free() >= h.max_free() {
                    l.max_free()
                } else {
                    h.max_free()
                },
                _ => -1,
            },
        }
    }

    /// Whether a claim of block `b` under this node would succeed.
    pub open spec fn can_claim(self, b: IpBlock) -> bool
        decreases self,
    {
        &&& self.cidr.contains_spec(b)
        &&& match self.state {
            State::Free => true,
            State::Allocated => false,
            State::Split => match (self.low, self.high) {
                (Some(l), Some(h)) => l.can_claim(b) || h.can_claim(b),
                _ => false,
            },
        }
    }

    /// The node whose block is exactly `b`, found by descending through
    /// containing nodes.
    pub open spec fn find_node(self, b: IpBlock) -> Option<Subspace>
        decreases self,
    {
        if !self.cidr.contains_spec(b) {
            None
        } else if self.cidr == b {
            Some(self)
        } else {
            let fl = match self.low {
                Some(l) => l.find_node(b),
                None => None,
            };
            if fl is Some {
                fl
            } else {
                match self.high {
                    Some(h) => h.find_node(b),
                    None => None,
                }
            }
        }
    }

    /// No leftover splits: every `Split` node has at least one allocation
    /// beneath it.  Failed claims may leave a tree untidy; trees built only
    /// from successful operations stay tidy.
    pub open spec fn tidy(self) -> bool
        decreases self,
    {
        match self.state {
            State::Split => match (self.low, self.high) {
                (Some(l), Some(h)) => self.recs().len() >= 1 && l.tidy() && h.tidy(),
                _ => false,
            },
            _ => true,
        }
    }

    /// A fresh free node over the given block.
    pub open spec fn free_node(b: IpBlock) -> Subspace {
        Subspace { cidr: b, name: None, state: State::Free, low: None, high: None }
    }

    /// Whether block `b` is allocated, exactly, somewhere under this node.
    pub open spec fn has_block(self, b: IpBlock) -> bool {
        exists|j: int| 0 <= j < self.recs().len() && (#[trigger] self.recs()[j]).0 == b
    }
}

/// An allocated block with its optional name, as handed out by record
/// listings.
#[derive(Debug, PartialEq, Eq)]
pub struct CidrRecord {
    pub cidr: IpBlock,
    pub name: Option<String>,
}

impl CidrRecord {
    /// The record as a specification-level pair.
    pub open spec fn view_rec(self) -> Rec {
        (self.cidr, name_view(self.name))
    }
}

/// The view of a listing of records.
pub open spec fn recs_view(s: Seq<CidrRecord>) -> Seq<Rec> {
    s.map_values(|r: CidrRecord| r.view_rec())
}

/// In a well-formed tree the allocated blocks are well-formed, contained in
/// the root block, and strictly ordered: each record's range ends at or
/// before the next record's range begins.  In particular no two allocated
/// blocks overlap.
pub proof fn lemma_recs_ordered(t: Subspace)
    requires
        t.wf(),
    ensures
        forall|i: int|
            0 <= i < t.recs().len() ==> (#[trigger] t.recs()[i]).0.wf() && t.cidr.contains_spec(
                t.recs()[i].0,
            ),
        forall|i: int, j: int|
            0 <= i < j < t.recs().len() ==> (#[trigger] t.recs()[i]).0.end() <= (
            #[trigger] t.recs()[j]).0.addr,
    decreases t,
{
    match t.state {
        State::Split => {
            let l = *t.low.unwrap();
            let h = *t.high.unwrap();
            lemma_recs_ordered(l);
            lemma_recs_ordered(h);
            lemma_halves(t.cidr);
            assert forall|i: int|
                0 <= i < t.recs().len() implies (#[trigger] t.recs()[i]).0.wf()
                && t.cidr.contains_spec(t.recs()[i].0) by {
                if i < l.recs().len() {
                    assert(t.recs()[i] == l.recs()[i]);
                } else {
                    assert(t.recs()[i] == h.recs()[i - l.recs().len()]);
                }
            }
            assert forall|i: int, j: int|
                0 <= i < j < t.recs().len() implies (#[trigger] t.recs()[i]).0.end() <= (
            #[trigger] t.recs()[j]).0.addr by {
                let nl = l.recs().len() as int;
                if j < nl {
                    assert(t.recs()[i] == l.recs()[i]);
                    assert(t.recs()[j] == l.recs()[j]);
                } else if i >= nl {
                    assert(t.recs()[i] == h.recs()[i - nl]);
                    assert(t.recs()[j] == h.recs()[j - nl]);
                } else {
                    // i in the low half, j in the high half
                    assert(t.recs()[i] == l.recs()[i]);
                    assert(t.recs()[j] == h.recs()[j - nl]);
                    assert(l.cidr.contains_spec(t.recs()[i].0));
                    assert(h.cidr.contains_spec(t.recs()[j].0));
                    assert(t.recs()[i].0.end() <= l.cidr.end());
                    assert(l.cidr.end() == h.cidr.addr);
                }
            }
        },
        State::Allocated => {
            crate::block::lemma_contains_refl(t.cidr);
        },
        State::Free => {},
    }
}

/// Distinct records of a well-formed tree hold distinct, non-overlapping
/// blocks.
pub proof fn lemma_recs_disjoint(t: Subspace)
    requires
        t.wf(),
    ensures
        forall|i: int, j: int|
            0 <= i < t.recs().len() && 0 <= j < t.recs().len() && i != j ==> !(
            #[trigger] t.recs()[i]).0.overlaps((#[trigger] t.recs()[j]).0),
        forall|i: int, j: int|
            0 <= i < t.recs().len() && 0 <= j < t.recs().len() && i != j ==> (
            #[trigger] t.recs()[i]).0 != (#[trigger] t.recs()[j]).0,
{
    lemma_recs_ordered(t);
    assert forall|i: int, j: int|
        0 <= i < t.recs().len() && 0 <= j < t.recs().len() && i != j implies !(
    #[trigger] t.recs()[i]).0.overlaps((#[trigger] t.recs()[j]).0) && t.recs()[i].0 != t.recs()[j].0 by {
        lemma_end_bound(t.recs()[i].0);
        lemma_end_bound(t.recs()[j].0);
        if i < j {
            assert(t.recs()[i].0.end() <= t.recs()[j].0.addr);
        } else {
            assert(t.recs()[j].0.end() <= t.recs()[i].0.addr);
        }
    }
}

/// A well-formed tree offers no free width above its own host width, and
/// whatever `lowest_free` returns is a well-formed sub-block of the root of
/// exactly the requested width.  A width is offered exactly when it is at
/// most `max_free`.
pub proof fn lemma_lowest_free(t: Subspace, n: u8)
    requires
        t.wf(),
    ensures
        t.max_free() <= t.cidr.host_bits(),
        (t.lowest_free(n) is Some) == (n as int <= t.max_free()),
        match t.lowest_free(n) {
            Some(b) => b.wf() && t.cidr.contains_spec(b) && b.host_bits() == n as nat,
            None => true,
        },
    decreases t,
{
    match t.state {
        State::Split => {
            let l = *t.low.unwrap();
            let h = *t.high.unwrap();
            lemma_lowest_free(l, n);
            lemma_lowest_free(h, n);
            lemma_halves(t.cidr);
        },
        State::Free => {
            if n as nat <= t.cidr.host_bits() {
                lemma_first_sub(t.cidr, n);
            }
        },
        State::Allocated => {},
    }
}

/// The records of a split node are those of its children, and it holds a
/// block exactly when one of its children does.
pub proof fn lemma_split_recs(t: Subspace, b: IpBlock)
    requires
        t.state == State::Split,
        t.low is Some,
        t.high is Some,
    ensures
        t.recs() == t.low.unwrap().recs() + t.high.unwrap().recs(),
        t.has_block(b) == (t.low.unwrap().has_block(b) || t.high.unwrap().has_block(b)),
{
    let l = *t.low.unwrap();
    let h = *t.high.unwrap();
    assert(t.recs() == l.recs() + h.recs());
    if l.has_block(b) {
        let j = choose|j: int| 0 <= j < l.recs().len() && (#[trigger] l.recs()[j]).0 == b;
        assert(t.recs()[j].0 == b);
        assert(t.has_block(b));
    }
    if h.has_block(b) {
        let j = choose|j: int| 0 <= j < h.recs().len() && (#[trigger] h.recs()[j]).0 == b;
        assert(t.recs()[l.recs().len() + j].0 == b);
        assert(t.has_block(b));
    }
    if t.has_block(b) {
        let j = choose|j: int| 0 <= j < t.recs().len() && (#[trigger] t.recs()[j]).0 == b;
        if j < l.recs().len() {
            assert(l.recs()[j].0 == b);
            assert(l.has_block(b));
        } else {
            assert(h.recs()[j - l.recs().len()].0 == b);
            assert(h.has_block(b));
        }
    }
}

/// On a tidy tree, a claim succeeds exactly when the target lies under the
/// root block and overlaps no allocated block.  (An untidy tree can refuse
/// a claim whose target is a leftover split node.)
pub proof fn lemma_can_claim_tidy(t: Subspace, b: IpBlock)
    requires
        t.wf(),
        t.tidy(),
        b.wf(),
    ensures
        t.can_claim(b) == (t.cidr.contains_spec(b) && forall|j: int|
            0 <= j < t.recs().len() ==> !(#[trigger] t.recs()[j]).0.overlaps(b)),
    decreases t,
{
    lemma_end_bound(b);
    lemma_recs_ordered(t);
    match t.state {
        State::Free => {},
        State::Allocated => {
            if t.cidr.contains_spec(b) {
                crate::block::lemma_contains_overlaps(t.cidr, b);
                assert(t.recs()[0].0.overlaps(b));
            }
        },
        State::Split => {
            let l = *t.low.unwrap();
            let h = *t.high.unwrap();
            lemma_halves(t.cidr);
            lemma_recs_ordered(l);
            lemma_recs_ordered(h);
            lemma_can_claim_tidy(l, b);
            lemma_can_claim_tidy(h, b);
            if !t.cidr.contains_spec(b) {
                assert(!t.can_claim(b));
            } else if t.cidr == b {
                // the node itself is split: tidy gives an allocation below,
                // which overlaps the whole block
                assert(t.recs().len() >= 1);
                assert(t.cidr.contains_spec(t.recs()[0].0));
                lemma_end_bound(t.recs()[0].0);
                crate::block::lemma_contains_overlaps(t.cidr, t.recs()[0].0);
                assert(t.recs()[0].0.overlaps(b));
                assert(!l.cidr.contains_spec(b)) by {
                    if l.cidr.contains_spec(b) {
                        lemma_contains_antisym(t.cidr, l.cidr);
                    }
                }
                assert(!h.cidr.contains_spec(b)) by {
                    if h.cidr.contains_spec(b) {
                        lemma_contains_antisym(t.cidr, h.cidr);
                    }
                }
                assert(!t.can_claim(b));
            } else {
                lemma_sub_in_half(t.cidr, b);
                crate::block::lemma_halves_exclusive(t.cidr, b);
                assert(t.recs() == l.recs() + h.recs());
                if l.cidr.contains_spec(b) {
                    assert(!h.can_claim(b));
                    // records in the high half cannot overlap b
                    assert forall|j: int|
                        l.recs().len() <= j < t.recs().len() implies !(
                    #[trigger] t.recs()[j]).0.overlaps(b) by {
                        assert(t.recs()[j] == h.recs()[j - l.recs().len()]);
                        assert(h.cidr.contains_spec(t.recs()[j].0));
                        lemma_end_bound(t.recs()[j].0);
                        crate::block::lemma_disjoint_sub(h.cidr, l.cidr, t.recs()[j].0, b);
                    }
                    assert forall|j: int|
                        0 <= j < l.recs().len() implies t.recs()[j] == l.recs()[j] by {}
                    if l.can_claim(b) {
                        assert forall|j: int|
                            0 <= j < t.recs().len() implies !(#[trigger] t.recs()[j]).0.overlaps(
                            b,
                        ) by {
                            if j < l.recs().len() {
                                assert(t.recs()[j] == l.recs()[j]);
                            }
                        }
                    } else {
                        let j = choose|j: int|
                            0 <= j < l.recs().len() && (#[trigger] l.recs()[j]).0.overlaps(b);
                        assert(t.recs()[j].0.overlaps(b));
                    }
                } else {
                    assert(h.cidr.contains_spec(b));
                    assert(!l.can_claim(b));
                    assert forall|j: int|
                        0 <= j < l.recs().len() implies !(#[trigger] t.recs()[j]).0.overlaps(b) by {
                        assert(t.recs()[j] == l.recs()[j]);
                        assert(l.cidr.contains_spec(t.recs()[j].0));
                        lemma_end_bound(t.recs()[j].0);
                        crate::block::lemma_disjoint_sub(l.cidr, h.cidr, t.recs()[j].0, b);
                    }
                    if h.can_claim(b) {
                        assert forall|j: int|
                            0 <= j < t.recs().len() implies !(#[trigger] t.recs()[j]).0.overlaps(
                            b,
                        ) by {
                            if j >= l.recs().len() {
                                assert(t.recs()[j] == h.recs()[j - l.recs().len()]);
                            }
                        }
                    } else {
                        let j = choose|j: int|
                            0 <= j < h.recs().len() && (#[trigger] h.recs()[j]).0.overlaps(b);
                        assert(t.recs()[l.recs().len() + j].0.overlaps(b));
                    }
                }
            }
        },
    }
}

/// An empty record sequence under a tidy node means the node is free.
pub proof fn lemma_tidy_empty_free(t: Subspace)
    requires
        t.tidy(),
        t.recs().len() == 0,
    ensures
        t.state == State::Free,
{
}

impl Subspace {
    /// A fresh free node over `cidr`.
    pub fn new(cidr: IpBlock) -> (r: Subspace)
        ensures
            r == Subspace::free_node(cidr),
    {
        Subspace { cidr, name: None, state: State::Free, low: None, high: None }
    }

    /// Divide a free node in two free children covering its halves.
    fn split(&mut self)
        requires
            old(self).wf(),
            old(self).state == State::Free,
            old(self).cidr.host_bits() >= 1,
        ensures
            final(self).wf(),
            final(self).cidr == old(self).cidr,
            final(self).state == State::Split,
            final(self).recs() =~= Seq::<Rec>::empty(),
            final(self).low matches Some(l) && *l == Subspace::free_node(
                old(self).cidr.low_half(),
            ),
            final(self).high matches Some(h) && *h == Subspace::free_node(
                old(self).cidr.high_half(),
            ),
    {
        proof {
            lemma_halves(self.cidr);
        }
        let low_cidr = self.cidr.split_low();
        let high_cidr = self.cidr.split_high();
        self.state = State::Split;
        self.low = Some(Box::new(Subspace::new(low_cidr)));
        self.high = Some(Box::new(Subspace::new(high_cidr)));
        proof {
            assert(Subspace::free_node(low_cidr).wf());
            assert(Subspace::free_node(high_cidr).wf());
            assert(Subspace::free_node(low_cidr).recs() =~= Seq::<Rec>::empty());
            assert(Subspace::free_node(high_cidr).recs() =~= Seq::<Rec>::empty());
        }
    }
}

impl Subspace {
    /// Allocate the lowest-addressed free sub-block of host width `n`,
    /// naming it `name`, splitting free nodes on the way down as needed.
    /// Returns the allocated block, or `None` when no free sub-block of that
    /// width exists, in which case the tree is unchanged.
    pub fn allocate_free_space(&mut self, n: u8, name: Option<&str>) -> (r: Option<IpBlock>)
        requires
            old(self).wf(),
        ensures
            final(self).wf(),
            final(self).cidr == old(self).cidr,
            r == old(self).lowest_free(n),
            match r {
                Some(b) => exists|i: int|
                    0 <= i <= old(self).recs().len() && final(self).recs() == old(
                        self,
                    ).recs().insert(i, (b, name_arg_view(name))),
                None => *final(self) == *old(self),
            },
            old(self).tidy() && r is Some ==> final(self).tidy(),
        decreases old(self).cidr.host_bits(),
    {
        proof {
            lemma_lowest_free(*self, n);
        }
        let my_host = self.cidr.host_len();
        if n > my_host {
            return None;
        }
        if self.state == State::Free {
            if n == my_host {
                self.state = State::Allocated;
                self.name = match name {
                    Some(s) => Some(s.to_owned()),
                    None => None,
                };
                proof {
                    assert(old(self).cidr.first_sub(n) == self.cidr);
                    assert(self.recs() =~= old(self).recs().insert(
                        0,
                        (self.cidr, name_arg_view(name)),
                    ));
                }
                return Some(self.cidr);
            }
            self.split();
        }
        if self.state == State::Split {
            let ghost pre = *self;
            let mut low_box = self.low.take();
            let r;
            match low_box {
                Some(mut l) => {
                    proof {
                        if old(self).state == State::Free {
                            crate::block::lemma_halves(old(self).cidr);
                            lemma_lowest_free(*l, n);
                        }
                    }
                    let rl = (&mut *l).allocate_free_space(n, name);
                    self.low = Some(l);
                    match rl {
                        Some(b) => {
                            r = Some(b);
                        },
                        None => {
                            let mut high_box = self.high.take();
                            match high_box {
                                Some(mut h) => {
                                    let rh = (&mut *h).allocate_free_space(n, name);
                                    self.high = Some(h);
                                    r = rh;
                                },
                                None => {
                                    proof {
                                        assert(false);
                                    }
                                    r = None;
                                },
                            }
                        },
                    }
                },
                None => {
                    proof {
                        assert(false);
                    }
                    r = None;
                },
            }
            proof {
                let l0 = *pre.low.unwrap();
                let h0 = *pre.high.unwrap();
                let l1 = *self.low.unwrap();
                let h1 = *self.high.unwrap();
                assert(pre.recs() == l0.recs() + h0.recs());
                assert(self.recs() == l1.recs() + h1.recs());
                match r {
                    Some(b) => {
                        let rec = (b, name_arg_view(name));
                        if l1.recs() != l0.recs() {
                            let i = choose|i: int|
                                0 <= i <= l0.recs().len() && l1.recs() == l0.recs().insert(i, rec);
                            lemma_insert_concat_left(l0.recs(), h0.recs(), i, rec);
                            assert(self.recs() == pre.recs().insert(i, rec));
                        } else {
                            let i = choose|i: int|
                                0 <= i <= h0.recs().len() && h1.recs() == h0.recs().insert(i, rec);
                            lemma_insert_concat_right(l0.recs(), h0.recs(), i, rec);
                            assert(self.recs() == pre.recs().insert(l0.recs().len() + i, rec));
                        }
                        if old(self).state == State::Free {
                            // A fresh split: the low half is free, so the
                            // allocation landed there at its base address.
                            assert(pre.recs() =~= old(self).recs());
                            assert(l0.lowest_free(n) == Some(l0.cidr.first_sub(n)));
                            assert(l0.cidr.first_sub(n) == old(self).cidr.first_sub(n));
                        }
                    },
                    None => {
                        assert(*self == pre);
                        if old(self).state == State::Free {
                            assert(l0.state == State::Free && l0.cidr.host_bits() >= n as nat);
                            assert(false);
                        }
                    },
                }
                if old(self).tidy() && r is Some {
                    if old(self).state == State::Free {
                        assert(l0.tidy());
                        assert(h0.tidy());
                    } else {
                        assert(pre == *old(self));
                        assert(l0.tidy() && h0.tidy());
                    }
                    assert(l1.tidy());
                    assert(h1.tidy());
                    assert(self.recs().len() >= 1);
                    assert(self.tidy());
                }
            }
            return r;
        }
        // Allocated: nothing free under this node.
        return None;
    }
}

impl Subspace {
    /// Free the allocation whose block is exactly `b`.  Returns whether an
    /// allocation was freed; a `Split` node whose children both become free
    /// collapses back into a free node.  On failure the tree is unchanged.
    #[verifier::rlimit(100)]
    pub fn free(&mut self, b: &IpBlock) -> (r: bool)
        requires
            old(self).wf(),
            b.wf(),
        ensures
            final(self).wf(),
            final(self).cidr == old(self).cidr,
            r == old(self).has_block(*b),
            r ==> exists|j: int|
                0 <= j < old(self).recs().len() && (#[trigger] old(self).recs()[j]).0 == *b
                    && final(self).recs() == old(self).recs().remove(j),
            !r ==> *final(self) == *old(self),
            old(self).tidy() ==> final(self).tidy(),
        decreases old(self).cidr.host_bits(),
    {
        if !self.cidr.contains_block(b) {
            proof {
                lemma_recs_ordered(*self);
                assert forall|j: int| 0 <= j < self.recs().len() implies (
                #[trigger] self.recs()[j]).0 != *b by {
                    if self.recs()[j].0 == *b {
                        assert(self.cidr.contains_spec(*b));
                    }
                }
            }
            return false;
        }
        if self.state == State::Allocated {
            if self.cidr == *b {
                self.state = State::Free;
                self.name = None;
                proof {
                    assert(old(self).recs()[0].0 == *b);
                    assert(self.recs() =~= old(self).recs().remove(0));
                }
                return true;
            }
            proof {
                assert(old(self).recs()[0].0 == old(self).cidr);
                assert forall|j: int| 0 <= j < self.recs().len() implies (
                #[trigger] self.recs()[j]).0 != *b by {}
            }
            return false;
        }
        if self.state == State::Free {
            return false;
        }
        // Split
        let ghost pre = *self;
        let mut low_box = self.low.take();
        let mut high_box = self.high.take();
        let r;
        match (low_box, high_box) {
            (Some(mut l), Some(mut h)) => {
                let ghost l0 = *l;
                let ghost h0 = *h;
                let mut freed = (&mut *l).free(b);
                if !freed {
                    freed = (&mut *h).free(b);
                }
                let ghost l1 = *l;
                let ghost h1 = *h;
                r = freed;
                if freed && l.state == State::Free && h.state == State::Free {
                    self.state = State::Free;
                    self.low = None;
                    self.high = None;
                } else {
                    self.low = Some(l);
                    self.high = Some(h);
                }
                proof {
                    lemma_split_recs(pre, *b);
                    assert(freed == pre.has_block(*b));
                    if freed {
                        if self.state == State::Free {
                            assert(l1.recs() =~= Seq::<Rec>::empty());
                            assert(h1.recs() =~= Seq::<Rec>::empty());
                            assert(self.recs() =~= l1.recs() + h1.recs());
                        } else {
                            lemma_split_recs(*self, *b);
                        }
                        if l0.has_block(*b) {
                            let j = choose|j: int|
                                0 <= j < l0.recs().len() && (#[trigger] l0.recs()[j]).0 == *b
                                    && l1.recs() == l0.recs().remove(j);
                            lemma_remove_concat_left(l0.recs(), h0.recs(), j);
                            assert(pre.recs()[j].0 == *b);
                            assert(self.recs() == pre.recs().remove(j));
                        } else {
                            assert(l1 == l0);
                            let j = choose|j: int|
                                0 <= j < h0.recs().len() && (#[trigger] h0.recs()[j]).0 == *b
                                    && h1.recs() == h0.recs().remove(j);
                            lemma_remove_concat_right(l0.recs(), h0.recs(), j);
                            assert(pre.recs()[l0.recs().len() + j].0 == *b);
                            assert(self.recs() == pre.recs().remove(l0.recs().len() + j));
                        }
                    } else {
                        assert(l1 == l0 && h1 == h0);
                        assert(*self == pre);
                    }
                    if pre.tidy() {
                        assert(l0.tidy() && h0.tidy());
                        assert(l1.tidy() && h1.tidy());
                        if self.state != State::Free {
                            if self.recs().len() == 0 {
                                lemma_tidy_empty_free(l1);
                                lemma_tidy_empty_free(h1);
                                assert(false);
                            }
                            assert(self.tidy());
                        }
                    }
                }
            },
            _ => {
                proof {
                    assert(false);
                }
                r = false;
            },
        }
        r
    }

    /// Give the allocation whose block is exactly `b` the name `name`.
    /// Returns whether such an allocation exists; on failure the tree is
    /// unchanged.
    pub fn set_name(&mut self, b: &IpBlock, name: Option<&str>) -> (r: bool)
        requires
            old(self).wf(),
            b.wf(),
        ensures
            final(self).wf(),
            final(self).cidr == old(self).cidr,
            r == old(self).has_block(*b),
            r ==> exists|j: int|
                0 <= j < old(self).recs().len() && (#[trigger] old(self).recs()[j]).0 == *b
                    && final(self).recs() == old(self).recs().update(
                    j,
                    (*b, name_arg_view(name)),
                ),
            !r ==> *final(self) == *old(self),
            old(self).tidy() ==> final(self).tidy(),
        decreases old(self).cidr.host_bits(),
    {
        proof {
            lemma_recs_ordered(*self);
        }
        if !self.cidr.contains_block(b) {
            proof {
                assert forall|j: int| 0 <= j < self.recs().len() implies (
                #[trigger] self.recs()[j]).0 != *b by {
                    if self.recs()[j].0 == *b {
                        assert(self.cidr.contains_spec(*b));
                    }
                }
            }
            return false;
        }
        if self.state == State::Allocated {
            if self.cidr == *b {
                self.name = match name {
                    Some(s) => Some(s.to_owned()),
                    None => None,
                };
                proof {
                    assert(old(self).recs()[0].0 == *b);
                    assert(self.recs() =~= old(self).recs().update(0, (*b, name_arg_view(name))));
                }
                return true;
            }
            proof {
                assert forall|j: int| 0 <= j < self.recs().len() implies (
                #[trigger] self.recs()[j]).0 != *b by {}
            }
            return false;
        }
        if self.state == State::Free {
            return false;
        }
        // Split
        let ghost pre = *self;
        let mut low_box = self.low.take();
        let mut high_box = self.high.take();
        let r;
        match (low_box, high_box) {
            (Some(mut l), Some(mut h)) => {
                let ghost l0 = *l;
                let ghost h0 = *h;
                let mut done = (&mut *l).set_name(b, name);
                if !done {
                    done = (&mut *h).set_name(b, name);
                }
                let ghost l1 = *l;
                let ghost h1 = *h;
                r = done;
                self.low = Some(l);
                self.high = Some(h);
                proof {
                    let rec = (*b, name_arg_view(name));
                    lemma_split_recs(pre, *b);
                    lemma_split_recs(*self, *b);
                    assert(done == pre.has_block(*b));
                    if done {
                        if l0.has_block(*b) {
                            let j = choose|j: int|
                                0 <= j < l0.recs().len() && (#[trigger] l0.recs()[j]).0 == *b
                                    && l1.recs() == l0.recs().update(j, rec);
                            lemma_update_concat_left(l0.recs(), h0.recs(), j, rec);
                            assert(pre.recs()[j].0 == *b);
                            assert(self.recs() == pre.recs().update(j, rec));
                        } else {
                            assert(l1 == l0);
                            let j = choose|j: int|
                                0 <= j < h0.recs().len() && (#[trigger] h0.recs()[j]).0 == *b
                                    && h1.recs() == h0.recs().update(j, rec);
                            lemma_update_concat_right(l0.recs(), h0.recs(), j, rec);
                            assert(pre.recs()[l0.recs().len() + j].0 == *b);
                            assert(self.recs() == pre.recs().update(l0.recs().len() + j, rec));
                        }
                    } else {
                        assert(*self == pre);
                    }
                    if pre.tidy() {
                        assert(l0.tidy() && h0.tidy());
                        assert(l1.tidy() && h1.tidy());
                        assert(self.recs().len() == pre.recs().len());
                        assert(self.tidy());
                    }
                }
            },
            _ => {
                proof {
                    assert(false);
                }
                r = false;
            },
        }
        r
    }
}

impl Subspace {
    /// Claim the specific block `b`, naming it `name`, splitting free nodes
    /// on the way down as needed.  Succeeds exactly when `b` lies under this
    /// node and no node on the way is already allocated.  On failure the
    /// set of allocations is unchanged, though splits made while searching
    /// are kept.
    pub fn claim(&mut self, b: &IpBlock, name: Option<&str>) -> (r: bool)
        requires
            old(self).wf(),
            b.wf(),
        ensures
            final(self).wf(),
            final(self).cidr == old(self).cidr,
            r == old(self).can_claim(*b),
            r ==> exists|i: int|
                0 <= i <= old(self).recs().len() && final(self).recs() == old(self).recs().insert(
                    i,
                    (*b, name_arg_view(name)),
                ),
            !r ==> final(self).recs() == old(self).recs(),
            !old(self).cidr.contains_spec(*b) ==> *final(self) == *old(self),
            old(self).tidy() && r ==> final(self).tidy(),
        decreases old(self).cidr.host_bits(),
    {
        if !self.cidr.contains_block(b) {
            return false;
        }
        if self.state == State::Allocated {
            return false;
        }
        if self.state == State::Free {
            if self.cidr == *b {
                self.state = State::Allocated;
                self.name = match name {
                    Some(s) => Some(s.to_owned()),
                    None => None,
                };
                proof {
                    assert(self.recs() =~= old(self).recs().insert(
                        0,
                        (*b, name_arg_view(name)),
                    ));
                }
                return true;
            }
            proof {
                lemma_sub_in_half(old(self).cidr, *b);
            }
            self.split();
        }
        // Split
        let ghost pre = *self;
        let mut low_box = self.low.take();
        let mut high_box = self.high.take();
        let r;
        match (low_box, high_box) {
            (Some(mut l), Some(mut h)) => {
                let ghost l0 = *l;
                let ghost h0 = *h;
                let mut ok = (&mut *l).claim(b, name);
                if !ok {
                    ok = (&mut *h).claim(b, name);
                }
                let ghost l1 = *l;
                let ghost h1 = *h;
                r = ok;
                self.low = Some(l);
                self.high = Some(h);
                proof {
                    let rec = (*b, name_arg_view(name));
                    crate::block::lemma_halves(old(self).cidr);
                    crate::block::lemma_halves_exclusive(old(self).cidr, *b);
                    assert(pre.recs() == l0.recs() + h0.recs());
                    assert(self.recs() == l1.recs() + h1.recs());
                    if old(self).state == State::Free {
                        assert(pre.recs() =~= old(self).recs());
                        assert(old(self).can_claim(*b));
                    }
                    assert(r == pre.can_claim(*b));
                    assert(pre.can_claim(*b) == old(self).can_claim(*b));
                    if r {
                        if l0.can_claim(*b) {
                            let i = choose|i: int|
                                0 <= i <= l0.recs().len() && l1.recs() == l0.recs().insert(i, rec);
                            lemma_insert_concat_left(l0.recs(), h0.recs(), i, rec);
                            assert(self.recs() == pre.recs().insert(i, rec));
                        } else {
                            assert(l1 == l0);
                            let i = choose|i: int|
                                0 <= i <= h0.recs().len() && h1.recs() == h0.recs().insert(i, rec);
                            lemma_insert_concat_right(l0.recs(), h0.recs(), i, rec);
                            assert(self.recs() == pre.recs().insert(l0.recs().len() + i, rec));
                        }
                        if old(self).recs() != pre.recs() {
                            assert(false);
                        }
                    } else {
                        assert(self.recs() == pre.recs());
                    }
                    if old(self).tidy() && r {
                        if old(self).state == State::Free {
                            assert(l0.tidy() && h0.tidy());
                        } else {
                            assert(pre == *old(self));
                            assert(l0.tidy() && h0.tidy());
                        }
                        if l0.can_claim(*b) {
                            assert(l1.tidy());
                            assert(!h0.cidr.contains_spec(*b));
                            assert(h1 == h0);
                        } else {
                            assert(h0.can_claim(*b));
                            assert(!l0.cidr.contains_spec(*b));
                            assert(l1 == l0);
                            assert(h1.tidy());
                        }
                        assert(self.recs().len() >= 1);
                        assert(self.tidy());
                    }
                }
            },
            _ => {
                proof {
                    assert(false);
                }
                r = false;
            },
        }
        r
    }

    /// Look up the node covering exactly block `b`, if the descent through
    /// containing nodes reaches one.
    pub fn find_record(&self, b: &IpBlock) -> (r: Option<&Subspace>)
        requires
            self.wf(),
            b.wf(),
        ensures
            match r {
                Some(nd) => self.find_node(*b) == Some(*nd),
                None => self.find_node(*b) is None,
            },
        decreases self.cidr.host_bits(),
    {
        if !self.cidr.contains_block(b) {
            return None;
        }
        if self.cidr == *b {
            return Some(self);
        }
        let found_low = match &self.low {
            Some(l) => l.find_record(b),
            None => None,
        };
        match found_low {
            Some(nd) => Some(nd),
            None => match &self.high {
                Some(h) => h.find_record(b),
                None => None,
            },
        }
    }

    /// The largest host width an allocation request could currently get, or
    /// 0 when nothing is free.
    pub fn max_free_len(&self) -> (r: u8)
        requires
            self.wf(),
        ensures
            self.max_free() <= self.cidr.host_bits(),
            r as int == if self.max_free() < 0 {
                0
            } else {
                self.max_free()
            },
        decreases self.cidr.host_bits(),
    {
        match self.state {
            State::Free => self.cidr.host_len(),
            State::Allocated => 0,
            State::Split => {
                let a = match &self.low {
                    Some(l) => l.max_free_len(),
                    None => {
                        proof {
                            assert(false);
                        }
                        0
                    },
                };
                let c = match &self.high {
                    Some(h) => h.max_free_len(),
                    None => {
                        proof {
                            assert(false);
                        }
                        0
                    },
                };
                if a >= c {
                    a
                } else {
                    c
                }
            },
        }
    }

    /// Append the allocated blocks under this node, with their names, in
    /// depth-first low-before-high order.
    pub fn append_records(&self, out: &mut Vec<CidrRecord>)
        requires
            self.wf(),
        ensures
            recs_view(final(out)@) == recs_view(old(out)@) + self.recs(),
        decreases self.cidr.host_bits(),
    {
        match self.state {
            State::Allocated => {
                let nm = match &self.name {
                    Some(s) => Some(s.clone()),
                    None => None,
                };
                out.push(CidrRecord { cidr: self.cidr, name: nm });
                proof {
                    assert(recs_view(out@) =~= recs_view(old(out)@) + self.recs());
                }
            },
            State::Free => {
                proof {
                    assert(recs_view(out@) =~= recs_view(old(out)@) + self.recs());
                }
            },
            State::Split => {
                let ghost mid = out@;
                match &self.low {
                    Some(l) => l.append_records(out),
                    None => {
                        proof {
                            assert(false);
                        }
                    },
                };
                match &self.high {
                    Some(h) => h.append_records(out),
                    None => {
                        proof {
                            assert(false);
                        }
                    },
                };
                proof {
                    assert(recs_view(out@) =~= recs_view(old(out)@) + self.recs());
                }
            },
        }
    }
}

/// Looking up a block finds the node that covers it exactly; that node is
/// allocated exactly when the block is among the tree's records, and then
/// its name is the record's name.
#[verifier::rlimit(80)]
pub proof fn lemma_find_allocated(t: Subspace, b: IpBlock)
    requires
        t.wf(),
        b.wf(),
    ensures
        match t.find_node(b) {
            Some(nd) => {
                &&& nd.cidr == b
                &&& nd.wf()
                &&& (nd.state == State::Allocated ==> exists|j: int|
                    0 <= j < t.recs().len() && #[trigger] t.recs()[j] == (b, name_view(nd.name)))
                &&& (nd.state != State::Allocated ==> !t.has_block(b))
            },
            None => !t.has_block(b),
        },
    decreases t,
{
    lemma_recs_ordered(t);
    if !t.cidr.contains_spec(b) {
        assert(!t.has_block(b)) by {
            if t.has_block(b) {
                let j = choose|j: int|
                    0 <= j < t.recs().len() && (#[trigger] t.recs()[j]).0 == b;
                assert(t.cidr.contains_spec(t.recs()[j].0));
            }
        }
    } else if t.cidr == b {
        match t.state {
            State::Allocated => {
                assert(t.recs()[0] == (b, name_view(t.name)));
            },
            State::Free => {
                assert(!t.has_block(b));
            },
            State::Split => {
                let l = *t.low.unwrap();
                let h = *t.high.unwrap();
                lemma_halves(t.cidr);
                lemma_recs_ordered(l);
                lemma_recs_ordered(h);
                assert(!t.has_block(b)) by {
                    if t.has_block(b) {
                        let j = choose|j: int|
                            0 <= j < t.recs().len() && (#[trigger] t.recs()[j]).0 == b;
                        if j < l.recs().len() {
                            assert(t.recs()[j] == l.recs()[j]);
                            assert(l.cidr.contains_spec(b));
                            lemma_contains_antisym(t.cidr, l.cidr);
                        } else {
                            assert(t.recs()[j] == h.recs()[j - l.recs().len()]);
                            assert(h.cidr.contains_spec(b));
                            lemma_contains_antisym(t.cidr, h.cidr);
                        }
                    }
                }
            },
        }
    } else {
        match t.state {
            State::Allocated => {
                assert(t.recs()[0].0 == t.cidr);
                assert(!t.has_block(b)) by {
                    if t.has_block(b) {
                        let j = choose|j: int|
                            0 <= j < t.recs().len() && (#[trigger] t.recs()[j]).0 == b;
                    }
                }
            },
            State::Free => {
                assert(!t.has_block(b));
            },
            State::Split => {
                let l = *t.low.unwrap();
                let h = *t.high.unwrap();
                lemma_halves(t.cidr);
                lemma_sub_in_half(t.cidr, b);
                crate::block::lemma_halves_exclusive(t.cidr, b);
                lemma_find_allocated(l, b);
                lemma_find_allocated(h, b);
                lemma_split_recs(t, b);
                lemma_recs_ordered(l);
                lemma_recs_ordered(h);
                if l.cidr.contains_spec(b) {
                    assert(h.find_node(b) is None);
                    assert(!h.has_block(b)) by {
                        if h.has_block(b) {
                            let j = choose|j: int|
                                0 <= j < h.recs().len() && (#[trigger] h.recs()[j]).0 == b;
                            assert(h.cidr.contains_spec(b));
                        }
                    }
                    match l.find_node(b) {
                        Some(nd) => {
                            assert(t.find_node(b) == Some(nd));
                            if nd.state == State::Allocated {
                                let j = choose|j: int|
                                    0 <= j < l.recs().len() && #[trigger] l.recs()[j] == (
                                    b,
                                    name_view(nd.name),
                                );
                                assert(t.recs()[j] == l.recs()[j]);
                            }
                        },
                        None => {},
                    }
                } else {
                    assert(h.cidr.contains_spec(b));
                    assert(l.find_node(b) is None);
                    assert(!l.has_block(b)) by {
                        if l.has_block(b) {
                            let j = choose|j: int|
                                0 <= j < l.recs().len() && (#[trigger] l.recs()[j]).0 == b;
                            assert(l.cidr.contains_spec(b));
                        }
                    }
                    match h.find_node(b) {
                        Some(nd) => {
                            assert(t.find_node(b) == Some(nd));
                            if nd.state == State::Allocated {
                                let j = choose|j: int|
                                    0 <= j < h.recs().len() && #[trigger] h.recs()[j] == (
                                    b,
                                    name_view(nd.name),
                                );
                                assert(t.recs()[l.recs().len() + j] == h.recs()[j]);
                            }
                        },
                        None => {},
                    }
                }
            },
        }
    }
}

/// Inserting into the left part of a concatenation inserts into the whole.
pub proof fn lemma_insert_concat_left<A>(a: Seq<A>, b: Seq<A>, i: int, x: A)
    requires
        0 <= i <= a.len(),
    ensures
        a.insert(i, x) + b =~= (a + b).insert(i, x),
{
}

/// Inserting into the right part of a concatenation inserts into the whole.
pub proof fn lemma_insert_concat_right<A>(a: Seq<A>, b: Seq<A>, i: int, x: A)
    requires
        0 <= i <= b.len(),
    ensures
        a + b.insert(i, x) =~= (a + b).insert(a.len() + i, x),
{
}

/// Removing from the left part of a concatenation removes from the whole.
pub proof fn lemma_remove_concat_left<A>(a: Seq<A>, b: Seq<A>, i: int)
    requires
        0 <= i < a.len(),
    ensures
        a.remove(i) + b =~= (a + b).remove(i),
{
}

/// Removing from the right part of a concatenation removes from the whole.
pub proof fn lemma_remove_concat_right<A>(a: Seq<A>, b: Seq<A>, i: int)
    requires
        0 <= i < b.len(),
    ensures
        a + b.remove(i) =~= (a + b).remove(a.len() + i),
{
}

/// Updating the left part of a concatenation updates the whole.
pub proof fn lemma_update_concat_left<A>(a: Seq<A>, b: Seq<A>, i: int, x: A)
    requires
        0 <= i < a.len(),
    ensures
        a.update(i, x) + b =~= (a + b).update(i, x),
{
}

/// Updating the right part of a concatenation updates the whole.
pub proof fn lemma_update_concat_right<A>(a: Seq<A>, b: Seq<A>, i: int, x: A)
    requires
        0 <= i < b.len(),
    ensures
        a + b.update(i, x) =~= (a + b).update(a.len() + i, x),
{
}

} // verus!
