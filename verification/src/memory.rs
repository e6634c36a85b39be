use vstd::prelude::*;

verus! {

use crate::AllocateError;
use crate::block::IpBlock;
use crate::cidr_text::block_text;
use crate::cidr_text::block_to_string;
use crate::subspace::Rec;
use crate::subspace::State;
use crate::subspace::Subspace;
use crate::subspace::CidrRecord;
use crate::subspace::name_arg_view;
use crate::subspace::name_view;
use crate::subspace::recs_view;
use crate::subspace::lemma_recs_disjoint;
use crate::subspace::lemma_recs_ordered;
use crate::subspace::lemma_lowest_free;
use crate::subspace::lemma_find_allocated;

/// How many records carry an explicit name.
pub open spec fn count_named(s: Seq<Rec>) -> int
    decreases s.len(),
{
    if s.len() == 0 {
        0
    } else {
        count_named(s.drop_last()) + if s.last().1 is Some {
            1int
        } else {
            0int
        }
    }
}

/// The display key of a record: its explicit name, or the canonical text
/// of its block when it has none.
pub open spec fn key_of(r: Rec) -> Seq<char> {
    match r.1 {
        Some(n) => n,
        None => block_text(r.0),
    }
}

/// The display key an allocation gets: the requested name, or the
/// canonical text of the block being allocated.
pub open spec fn alloc_key(nv: Option<Seq<char>>, b: IpBlock) -> Seq<char> {
    match nv {
        Some(n) => n,
        None => block_text(b),
    }
}

/// An index entry stands for a record: same display key, same block.
pub open spec fn entry_matches(e: (Seq<char>, IpBlock), r: Rec) -> bool {
    e.0 == key_of(r) && e.1 == r.0
}

/// The entry stands for some record of `rs`.
pub open spec fn entry_has_rec(e: (Seq<char>, IpBlock), rs: Seq<Rec>) -> bool {
    exists|j: int| 0 <= j < rs.len() && entry_matches(e, #[trigger] rs[j])
}

/// Some entry of `ind` stands for the record.
pub open spec fn rec_has_entry(ind: Seq<(Seq<char>, IpBlock)>, r: Rec) -> bool {
    exists|i: int| 0 <= i < ind.len() && entry_matches(#[trigger] ind[i], r)
}

/// The name index is in one-to-one correspondence with the records: every
/// entry stands for a record, every record has an entry, and keys are
/// unique.
pub open spec fn index_rec_match(ind: Seq<(Seq<char>, IpBlock)>, rs: Seq<Rec>) -> bool {
    &&& ind.len() == rs.len()
    &&& forall|i: int| 0 <= i < ind.len() ==> entry_has_rec(#[trigger] ind[i], rs)
    &&& forall|j: int| 0 <= j < rs.len() ==> rec_has_entry(ind, #[trigger] rs[j])
    &&& forall|i1: int, i2: int|
        0 <= i1 < i2 < ind.len() ==> (#[trigger] ind[i1]).0 != (#[trigger] ind[i2]).0
}

/// Appending a fresh-keyed entry for a newly inserted record keeps index
/// and records in correspondence.
pub proof fn lemma_match_push(
    ind: Seq<(Seq<char>, IpBlock)>,
    rs: Seq<Rec>,
    e: (Seq<char>, IpBlock),
    rec: Rec,
    ins: int,
)
    requires
        index_rec_match(ind, rs),
        entry_matches(e, rec),
        0 <= ins <= rs.len(),
        forall|i: int| 0 <= i < ind.len() ==> (#[trigger] ind[i]).0 != e.0,
    ensures
        index_rec_match(ind.push(e), rs.insert(ins, rec)),
{
    let ind1 = ind.push(e);
    let rs1 = rs.insert(ins, rec);
    assert forall|i: int| 0 <= i < ind1.len() implies entry_has_rec(#[trigger] ind1[i], rs1) by {
        if i < ind.len() {
            assert(ind1[i] == ind[i]);
            assert(entry_has_rec(ind[i], rs));
            let j = choose|j: int| 0 <= j < rs.len() && entry_matches(ind[i], #[trigger] rs[j]);
            if j < ins {
                assert(rs1[j] == rs[j]);
                assert(entry_matches(ind1[i], rs1[j]));
            } else {
                assert(rs1[j + 1] == rs[j]);
                assert(entry_matches(ind1[i], rs1[j + 1]));
            }
        } else {
            assert(ind1[i] == e);
            assert(rs1[ins] == rec);
            assert(entry_matches(ind1[i], rs1[ins]));
        }
    }
    assert forall|j: int| 0 <= j < rs1.len() implies rec_has_entry(ind1, #[trigger] rs1[j]) by {
        if j == ins {
            assert(rs1[j] == rec);
            assert(ind1[ind.len() as int] == e);
            assert(entry_matches(ind1[ind.len() as int], rs1[j]));
        } else {
            let j0 = if j < ins {
                j
            } else {
                j - 1
            };
            assert(rs1[j] == rs[j0]);
            assert(rec_has_entry(ind, rs[j0]));
            let i = choose|i: int| 0 <= i < ind.len() && entry_matches(#[trigger] ind[i], rs[j0]);
            assert(ind1[i] == ind[i]);
            assert(entry_matches(ind1[i], rs1[j]));
        }
    }
    assert forall|i1: int, i2: int| 0 <= i1 < i2 < ind1.len() implies (#[trigger] ind1[i1]).0 != (
    #[trigger] ind1[i2]).0 by {
        if i2 == ind.len() {
            assert(ind1[i1] == ind[i1] && ind1[i2] == e);
            assert((ind[i1]).0 != e.0);
        } else {
            assert(ind1[i1] == ind[i1] && ind1[i2] == ind[i2]);
        }
    }
    assert(index_rec_match(ind1, rs1));
}

/// In a correspondence over records with pairwise distinct blocks, records
/// with the same display key stand at the same position.
pub proof fn lemma_match_keys_unique(ind: Seq<(Seq<char>, IpBlock)>, rs: Seq<Rec>)
    requires
        index_rec_match(ind, rs),
        forall|j1: int, j2: int|
            0 <= j1 < rs.len() && 0 <= j2 < rs.len() && j1 != j2 ==> (#[trigger] rs[j1]).0 != (
            #[trigger] rs[j2]).0,
    ensures
        forall|j1: int, j2: int|
            0 <= j1 < rs.len() && 0 <= j2 < rs.len() && key_of(#[trigger] rs[j1]) == key_of(
                #[trigger] rs[j2],
            ) ==> j1 == j2,
{
    assert forall|j1: int, j2: int|
        0 <= j1 < rs.len() && 0 <= j2 < rs.len() && key_of(#[trigger] rs[j1]) == key_of(
            #[trigger] rs[j2],
        ) implies j1 == j2 by {
        if j1 != j2 {
            assert(rec_has_entry(ind, rs[j1]));
            assert(rec_has_entry(ind, rs[j2]));
            let i1 = choose|i: int| 0 <= i < ind.len() && entry_matches(#[trigger] ind[i], rs[j1]);
            let i2 = choose|i: int| 0 <= i < ind.len() && entry_matches(#[trigger] ind[i], rs[j2]);
            assert(ind[i1].1 == rs[j1].0 && ind[i2].1 == rs[j2].0);
            assert(i1 != i2);
            assert(ind[i1].0 == ind[i2].0);
            if i1 < i2 {
                assert((ind[i1]).0 != (ind[i2]).0);
            } else {
                assert((ind[i2]).0 != (ind[i1]).0);
            }
        }
    }
}

/// Removing an entry together with the record it stands for keeps index
/// and records in correspondence.
#[verifier::rlimit(100)]
pub proof fn lemma_match_remove(ind: Seq<(Seq<char>, IpBlock)>, rs: Seq<Rec>, i: int, j: int)
    requires
        index_rec_match(ind, rs),
        0 <= i < ind.len(),
        0 <= j < rs.len(),
        entry_matches(ind[i], rs[j]),
        forall|j1: int, j2: int|
            0 <= j1 < rs.len() && 0 <= j2 < rs.len() && j1 != j2 ==> (#[trigger] rs[j1]).0 != (
            #[trigger] rs[j2]).0,
    ensures
        index_rec_match(ind.remove(i), rs.remove(j)),
{
    lemma_match_keys_unique(ind, rs);
    let ind1 = ind.remove(i);
    let rs1 = rs.remove(j);
    assert forall|i1: int| 0 <= i1 < ind1.len() implies entry_has_rec(#[trigger] ind1[i1], rs1) by {
        let i0 = if i1 < i {
            i1
        } else {
            i1 + 1
        };
        assert(ind1[i1] == ind[i0]);
        assert(entry_has_rec(ind[i0], rs));
        let j0 = choose|j0: int| 0 <= j0 < rs.len() && entry_matches(ind[i0], #[trigger] rs[j0]);
        assert(j0 != j) by {
            if j0 == j {
                assert(ind[i0].0 == key_of(rs[j]) && ind[i].0 == key_of(rs[j]));
                assert(i0 != i);
                if i0 < i {
                    assert((ind[i0]).0 != (ind[i]).0);
                } else {
                    assert((ind[i]).0 != (ind[i0]).0);
                }
            }
        }
        if j0 < j {
            assert(rs1[j0] == rs[j0]);
            assert(entry_matches(ind1[i1], rs1[j0]));
        } else {
            assert(rs1[j0 - 1] == rs[j0]);
            assert(entry_matches(ind1[i1], rs1[j0 - 1]));
        }
    }
    assert forall|j1: int| 0 <= j1 < rs1.len() implies rec_has_entry(ind1, #[trigger] rs1[j1]) by {
        let j0 = if j1 < j {
            j1
        } else {
            j1 + 1
        };
        assert(rs1[j1] == rs[j0]);
        assert(rec_has_entry(ind, rs[j0]));
        let i0 = choose|i0: int| 0 <= i0 < ind.len() && entry_matches(#[trigger] ind[i0], rs[j0]);
        assert(i0 != i) by {
            if i0 == i {
                assert(ind[i].1 == rs[j0].0 && ind[i].1 == rs[j].0);
                assert(rs[j0].0 == rs[j].0);
                assert(j0 != j);
            }
        }
        if i0 < i {
            assert(ind1[i0] == ind[i0]);
            assert(entry_matches(ind1[i0], rs1[j1]));
        } else {
            assert(ind1[i0 - 1] == ind[i0]);
            assert(entry_matches(ind1[i0 - 1], rs1[j1]));
        }
    }
    assert forall|i1: int, i2: int| 0 <= i1 < i2 < ind1.len() implies (#[trigger] ind1[i1]).0 != (
    #[trigger] ind1[i2]).0 by {
        let a = if i1 < i {
            i1
        } else {
            i1 + 1
        };
        let c = if i2 < i {
            i2
        } else {
            i2 + 1
        };
        assert(ind1[i1] == ind[a] && ind1[i2] == ind[c]);
        assert(a < c);
    }
    assert(index_rec_match(ind1, rs1));
}

/// A named address space: one allocation tree plus the display-key index
/// over its records.
pub struct MemorySpace {
    pub root: Subspace,
    pub index: Vec<(String, IpBlock)>,
}

impl MemorySpace {
    /// The base block the space manages.
    pub open spec fn base(self) -> IpBlock {
        self.root.cidr
    }

    /// The records of the space: allocated blocks with their names, in
    /// address order.
    pub open spec fn recs(self) -> Seq<Rec> {
        self.root.recs()
    }

    /// The index as specification-level pairs.
    pub open spec fn index_pairs(self) -> Seq<(Seq<char>, IpBlock)> {
        self.index@.map_values(|e: (String, IpBlock)| (e.0@, e.1))
    }

    /// Whether some allocation carries the display key `k`.
    pub open spec fn has_key(self, k: Seq<char>) -> bool {
        exists|i: int| 0 <= i < self.index_pairs().len() && (#[trigger] self.index_pairs()[i]).0 == k
    }

    /// Whether some allocation carries the explicit name `k`.
    pub open spec fn has_named_key(self, k: Seq<char>) -> bool {
        exists|j: int| 0 <= j < self.recs().len() && (#[trigger] self.recs()[j]).1 == Some(k)
    }

    /// The space invariant: the tree is well-formed and the index is in
    /// one-to-one correspondence with its records.
    pub open spec fn inv(self) -> bool {
        &&& self.root.wf()
        &&& index_rec_match(self.index_pairs(), self.recs())
    }

    /// A fresh space over the given block, with no allocations.
    pub fn new(cidr: IpBlock) -> (r: MemorySpace)
        requires
            cidr.wf(),
        ensures
            r.inv(),
            r.base() == cidr,
            r.root == Subspace::free_node(cidr),
            r.root.tidy(),
            r.recs() =~= Seq::<Rec>::empty(),
            r.index_pairs() =~= Seq::<(Seq<char>, IpBlock)>::empty(),
    {
        let r = MemorySpace { root: Subspace::new(cidr), index: Vec::new() };
        proof {
            assert(r.index_pairs() =~= Seq::<(Seq<char>, IpBlock)>::empty());
        }
        r
    }

    /// The base block of the space.
    pub fn cidr(&self) -> (r: &IpBlock)
        ensures
            *r == self.base(),
    {
        &self.root.cidr
    }

    /// Position of the index entry with the given key, if any.
    fn find_index(&self, key: &String) -> (r: Option<usize>)
        ensures
            match r {
                Some(i) => i < self.index@.len() && self.index@[i as int].0@ == key@,
                None => forall|i: int|
                    0 <= i < self.index@.len() ==> (#[trigger] self.index@[i]).0@ != key@,
            },
    {
        let mut i: usize = 0;
        while i < self.index.len()
            invariant
                i <= self.index@.len(),
                forall|k: int| 0 <= k < i ==> (#[trigger] self.index@[k]).0@ != key@,
            decreases self.index@.len() - i,
        {
            if self.index[i].0 == *key {
                return Some(i);
            }
            i = i + 1;
        }
        None
    }

    /// Allocate the lowest free block of host width `bits` under the
    /// display key given by `name` (or the block's own text).  Fails with
    /// `DuplicateName` when that key is already taken, leaving the
    /// allocations unchanged, and with `NoSpaceAvailable` when no free
    /// block of that width exists, leaving the space untouched.
    #[verifier::rlimit(100)]
    pub fn allocate(&mut self, bits: u8, name: Option<&str>) -> (r: Result<IpBlock, AllocateError>)
        requires
            old(self).inv(),
        ensures
            final(self).inv(),
            final(self).base() == old(self).base(),
            old(self).root.tidy() ==> final(self).root.tidy(),
            match r {
                Ok(b) => {
                    &&& Some(b) == old(self).root.lowest_free(bits)
                    &&& b.wf() && b.host_bits() == bits as nat
                    &&& !old(self).has_key(alloc_key(name_arg_view(name), b))
                    &&& exists|j: int|
                        0 <= j <= old(self).recs().len() && final(self).recs() == old(
                            self,
                        ).recs().insert(j, (b, name_arg_view(name)))
                    &&& final(self).index_pairs() == old(self).index_pairs().push(
                        (alloc_key(name_arg_view(name), b), b),
                    )
                },
                Err(AllocateError::DuplicateName) => {
                    &&& final(self).recs() == old(self).recs()
                    &&& final(self).index_pairs() == old(self).index_pairs()
                    &&& match name_arg_view(name) {
                        Some(n) => old(self).has_key(n),
                        None => old(self).root.lowest_free(bits) matches Some(b) && old(
                            self,
                        ).has_key(block_text(b)),
                    }
                },
                Err(AllocateError::NoSpaceAvailable) => {
                    &&& *final(self) == *old(self)
                    &&& old(self).root.lowest_free(bits) is None
                    &&& bits as int > old(self).root.max_free()
                },
            },
    {
        proof {
            lemma_lowest_free(old(self).root, bits);
        }
        match name {
            Some(n) => {
                let key_check: String = n.to_owned();
                if self.find_index(&key_check).is_some() {
                    proof {
                        let i = choose|i: int|
                            0 <= i < self.index@.len() && self.index@[i].0@ == key_check@;
                        assert(self.index_pairs()[i].0 == n@);
                    }
                    return Err(AllocateError::DuplicateName);
                }
            },
            None => {},
        }
        let rb = self.root.allocate_free_space(bits, name);
        match rb {
            None => Err(AllocateError::NoSpaceAvailable),
            Some(b) => {
                let ghost mid_root = self.root;
                let key: String = match name {
                    Some(n) => n.to_owned(),
                    None => block_to_string(&b),
                };
                match name {
                    None => {
                        if self.find_index(&key).is_some() {
                            proof {
                                let i = choose|i: int|
                                    0 <= i < self.index@.len() && self.index@[i].0@ == key@;
                                assert(self.index_pairs()[i].0 == block_text(b));
                            }
                            let ghost j = choose|j: int|
                                0 <= j <= old(self).recs().len() && mid_root.recs() == old(
                                    self,
                                ).recs().insert(j, (b, name_arg_view(name)));
                            let freed = self.root.free(&b);
                            proof {
                                assert(mid_root.recs()[j].0 == b);
                                assert(mid_root.has_block(b));
                                assert(freed);
                                lemma_recs_disjoint(mid_root);
                                let j2 = choose|j2: int|
                                    0 <= j2 < mid_root.recs().len() && (
                                    #[trigger] mid_root.recs()[j2]).0 == b && self.root.recs()
                                        == mid_root.recs().remove(j2);
                                assert(j2 == j);
                                assert(self.root.recs() =~= old(self).recs());
                            }
                            return Err(AllocateError::DuplicateName);
                        }
                    },
                    Some(_) => {},
                }
                let ghost pre_push = *self;
                self.index.push((key, b));
                proof {
                    let e = (alloc_key(name_arg_view(name), b), b);
                    let rec = (b, name_arg_view(name));
                    let j = choose|j: int|
                        0 <= j <= old(self).recs().len() && self.root.recs() == old(
                            self,
                        ).recs().insert(j, rec);
                    assert(key@ == e.0);
                    assert(entry_matches(e, rec));
                    assert(self.index_pairs() =~= old(self).index_pairs().push(e));
                    assert forall|i: int|
                        0 <= i < old(self).index_pairs().len() implies (
                    #[trigger] old(self).index_pairs()[i]).0 != e.0 by {
                        assert(old(self).index@[i].0@ != key@);
                    }
                    lemma_match_push(old(self).index_pairs(), old(self).recs(), e, rec, j);
                }
                Ok(b)
            },
        }
    }

    /// Free the allocation whose block is exactly `b`, dropping its index
    /// entry.  Returns whether an allocation was freed; on failure the
    /// space is unchanged.
    #[verifier::rlimit(100)]
    pub fn free(&mut self, b: &IpBlock) -> (r: bool)
        requires
            old(self).inv(),
            b.wf(),
        ensures
            final(self).inv(),
            final(self).base() == old(self).base(),
            old(self).root.tidy() ==> final(self).root.tidy(),
            r == old(self).root.has_block(*b),
            r ==> exists|j: int, i: int|
                {
                    &&& 0 <= j < old(self).recs().len()
                    &&& (#[trigger] old(self).recs()[j]).0 == *b
                    &&& final(self).recs() == old(self).recs().remove(j)
                    &&& 0 <= i < old(self).index_pairs().len()
                    &&& entry_matches(#[trigger] old(self).index_pairs()[i], old(self).recs()[j])
                    &&& final(self).index_pairs() == old(self).index_pairs().remove(i)
                },
            !r ==> *final(self) == *old(self),
    {
        proof {
            lemma_find_allocated(old(self).root, *b);
            lemma_recs_disjoint(old(self).root);
            lemma_match_keys_unique(old(self).index_pairs(), old(self).recs());
        }
        let key: String;
        match self.root.find_record(b) {
            Some(nd) => {
                if nd.state == State::Allocated {
                    key = match &nd.name {
                        Some(s) => s.clone(),
                        None => block_to_string(b),
                    };
                    proof {
                        let j = choose|j: int|
                            0 <= j < old(self).recs().len() && #[trigger] old(self).recs()[j] == (
                                *b,
                                name_view(nd.name),
                            );
                        assert(key_of(old(self).recs()[j]) == key@);
                    }
                } else {
                    return false;
                }
            },
            None => {
                return false;
            },
        }
        let ghost rs0 = old(self).recs();
        let ghost ind0 = old(self).index_pairs();
        let ghost j = choose|j: int|
            0 <= j < rs0.len() && #[trigger] rs0[j] == (*b, name_view(
                old(self).root.find_node(*b).unwrap().name,
            ));
        let freed = self.root.free(b);
        proof {
            assert(old(self).root.has_block(*b));
            assert(freed);
        }
        match self.find_index(&key) {
            Some(i) => {
                self.index.remove(i);
                proof {
                    let j2 = choose|j2: int|
                        0 <= j2 < rs0.len() && (#[trigger] rs0[j2]).0 == *b && self.root.recs()
                            == rs0.remove(j2);
                    assert(j2 == j);
                    assert(ind0[i as int].0 == key@);
                    assert(entry_has_rec(ind0[i as int], rs0));
                    let jm = choose|jm: int|
                        0 <= jm < rs0.len() && entry_matches(ind0[i as int], #[trigger] rs0[jm]);
                    assert(key_of(rs0[jm]) == key_of(rs0[j]));
                    assert(jm == j);
                    assert(entry_matches(ind0[i as int], rs0[j]));
                    lemma_match_remove(ind0, rs0, i as int, j);
                    assert(self.index_pairs() =~= ind0.remove(i as int));
                }
                true
            },
            None => {
                proof {
                    assert(rec_has_entry(ind0, rs0[j]));
                    let im = choose|im: int|
                        0 <= im < ind0.len() && entry_matches(#[trigger] ind0[im], rs0[j]);
                    assert(self.index@[im].0@ == key@);
                    assert(false);
                }
                false
            },
        }
    }

    /// Claim the specific block `b` under the display key given by `name`
    /// (or the block's own text).  Fails with `DuplicateName` when the key
    /// collides — for a named claim, with any display key; for an unnamed
    /// one, with an explicit allocation name — and with `NoSpaceAvailable`
    /// when the block is out of range or overlaps an existing allocation.
    /// Either failure leaves the allocations unchanged.
    #[verifier::rlimit(100)]
    pub fn claim(&mut self, b: &IpBlock, name: Option<&str>) -> (r: Result<(), AllocateError>)
        requires
            old(self).inv(),
            b.wf(),
        ensures
            final(self).inv(),
            final(self).base() == old(self).base(),
            match r {
                Ok(()) => {
                    &&& old(self).root.can_claim(*b)
                    &&& !old(self).has_key(alloc_key(name_arg_view(name), *b))
                    &&& exists|j: int|
                        0 <= j <= old(self).recs().len() && final(self).recs() == old(
                            self,
                        ).recs().insert(j, (*b, name_arg_view(name)))
                    &&& final(self).index_pairs() == old(self).index_pairs().push(
                        (alloc_key(name_arg_view(name), *b), *b),
                    )
                    &&& (old(self).root.tidy() ==> final(self).root.tidy())
                },
                Err(AllocateError::DuplicateName) => {
                    &&& final(self).recs() == old(self).recs()
                    &&& final(self).index_pairs() == old(self).index_pairs()
                    &&& match name_arg_view(name) {
                        Some(n) => old(self).has_key(n),
                        None => old(self).has_named_key(block_text(*b)) || (old(
                            self,
                        ).root.can_claim(*b) && old(self).has_key(block_text(*b))),
                    }
                },
                Err(AllocateError::NoSpaceAvailable) => {
                    &&& final(self).recs() == old(self).recs()
                    &&& final(self).index_pairs() == old(self).index_pairs()
                    &&& !old(self).root.can_claim(*b)
                    &&& match name_arg_view(name) {
                        Some(n) => !old(self).has_key(n),
                        None => !old(self).has_named_key(block_text(*b)),
                    }
                },
            },
    {
        proof {
            lemma_recs_disjoint(old(self).root);
        }
        let key: String = match name {
            Some(n) => n.to_owned(),
            None => block_to_string(b),
        };
        proof {
            assert(key@ == alloc_key(name_arg_view(name), *b));
        }
        match name {
            Some(_) => {
                match self.find_index(&key) {
                    Some(i) => {
                        proof {
                            assert(self.index_pairs()[i as int].0 == key@);
                        }
                        return Err(AllocateError::DuplicateName);
                    },
                    None => {},
                }
            },
            None => {
                // an unnamed claim is refused only by an explicit name
                let records = self.records();
                let mut t: usize = 0;
                while t < records.len()
                    invariant
                        *self == *old(self),
                        self.inv(),
                        t <= records@.len(),
                        recs_view(records@) == self.recs(),
                        key@ == alloc_key(name_arg_view(name), *b),
                        name_arg_view(name) is None,
                        forall|x: int|
                            0 <= x < t ==> (#[trigger] self.recs()[x]).1 != Some(key@),
                    decreases records@.len() - t,
                {
                    proof {
                        assert(self.recs()[t as int] == records@[t as int].view_rec());
                    }
                    let collide = match &records[t].name {
                        Some(nm) => *nm == key,
                        None => false,
                    };
                    if collide {
                        proof {
                            assert(self.recs()[t as int].1 == Some(key@));
                        }
                        return Err(AllocateError::DuplicateName);
                    }
                    t = t + 1;
                }
            },
        }
        if self.root.claim(b, name) {
            let ghost mid_root = self.root;
            match name {
                None => {
                    match self.find_index(&key) {
                        Some(i) => {
                            proof {
                                assert(self.index_pairs()[i as int].0 == key@);
                            }
                            let ghost j = choose|j: int|
                                0 <= j <= old(self).recs().len() && mid_root.recs() == old(
                                    self,
                                ).recs().insert(j, (*b, name_arg_view(name)));
                            // undo the claim: the key is already filed
                            let freed = self.root.free(b);
                            proof {
                                assert(mid_root.recs()[j].0 == *b);
                                assert(mid_root.has_block(*b));
                                assert(freed);
                                lemma_recs_disjoint(mid_root);
                                let j2 = choose|j2: int|
                                    0 <= j2 < mid_root.recs().len() && (
                                    #[trigger] mid_root.recs()[j2]).0 == *b && self.root.recs()
                                        == mid_root.recs().remove(j2);
                                assert(j2 == j);
                                assert(self.root.recs() =~= old(self).recs());
                            }
                            return Err(AllocateError::DuplicateName);
                        },
                        None => {},
                    }
                },
                Some(_) => {},
            }
            self.index.push((key, *b));
            proof {
                let e = (alloc_key(name_arg_view(name), *b), *b);
                let rec = (*b, name_arg_view(name));
                let j = choose|j: int|
                    0 <= j <= old(self).recs().len() && self.root.recs() == old(
                        self,
                    ).recs().insert(j, rec);
                assert(entry_matches(e, rec));
                assert(self.index_pairs() =~= old(self).index_pairs().push(e));
                assert forall|i: int|
                    0 <= i < old(self).index_pairs().len() implies (
                #[trigger] old(self).index_pairs()[i]).0 != e.0 by {
                    assert(old(self).index@[i].0@ != key@);
                }
                lemma_match_push(old(self).index_pairs(), old(self).recs(), e, rec, j);
            }
            Ok(())
        } else {
            Err(AllocateError::NoSpaceAvailable)
        }
    }

    /// Give the allocation whose block is exactly `b` the display key
    /// derived from `name`.  Fails with `NoSuchObject` when `b` is not
    /// allocated and with `DuplicateName` when the new key belongs to a
    /// different allocation; either failure leaves the space unchanged.
    #[verifier::rlimit(100)]
    pub fn rename(&mut self, b: &IpBlock, name: Option<&str>) -> (r: Result<(), crate::RenameError>)
        requires
            old(self).inv(),
            b.wf(),
        ensures
            final(self).inv(),
            final(self).base() == old(self).base(),
            old(self).root.tidy() ==> final(self).root.tidy(),
            match r {
                Ok(()) => {
                    &&& exists|j: int, i: int|
                        {
                            &&& 0 <= j < old(self).recs().len()
                            &&& (#[trigger] old(self).recs()[j]).0 == *b
                            &&& final(self).recs() == old(self).recs().update(
                                j,
                                (*b, name_arg_view(name)),
                            )
                            &&& 0 <= i < old(self).index_pairs().len()
                            &&& entry_matches(
                                #[trigger] old(self).index_pairs()[i],
                                old(self).recs()[j],
                            )
                            &&& final(self).index_pairs() == old(self).index_pairs().remove(i).push(
                                (alloc_key(name_arg_view(name), *b), *b),
                            )
                        }
                    &&& forall|i: int|
                        0 <= i < old(self).index_pairs().len() && (
                        #[trigger] old(self).index_pairs()[i]).0 == alloc_key(
                            name_arg_view(name),
                            *b,
                        ) ==> old(self).index_pairs()[i].1 == *b
                },
                Err(crate::RenameError::NoSuchObject) => {
                    &&& *final(self) == *old(self)
                    &&& !old(self).root.has_block(*b)
                },
                Err(crate::RenameError::DuplicateName) => {
                    &&& *final(self) == *old(self)
                    &&& exists|i: int|
                        0 <= i < old(self).index_pairs().len() && (
                        #[trigger] old(self).index_pairs()[i]).0 == alloc_key(
                            name_arg_view(name),
                            *b,
                        ) && old(self).index_pairs()[i].1 != *b
                },
            },
    {
        proof {
            lemma_find_allocated(old(self).root, *b);
            lemma_recs_disjoint(old(self).root);
            lemma_match_keys_unique(old(self).index_pairs(), old(self).recs());
        }
        let old_key: String;
        match self.root.find_record(b) {
            Some(nd) => {
                if nd.state == State::Allocated {
                    old_key = match &nd.name {
                        Some(s) => s.clone(),
                        None => block_to_string(b),
                    };
                    proof {
                        let j = choose|j: int|
                            0 <= j < old(self).recs().len() && #[trigger] old(self).recs()[j] == (
                                *b,
                                name_view(nd.name),
                            );
                        assert(key_of(old(self).recs()[j]) == old_key@);
                    }
                } else {
                    return Err(crate::RenameError::NoSuchObject);
                }
            },
            None => {
                return Err(crate::RenameError::NoSuchObject);
            },
        }
        let ghost rs0 = old(self).recs();
        let ghost ind0 = old(self).index_pairs();
        let ghost j = choose|j: int|
            0 <= j < rs0.len() && #[trigger] rs0[j] == (*b, name_view(
                old(self).root.find_node(*b).unwrap().name,
            ));
        let new_key: String = match name {
            Some(n) => n.to_owned(),
            None => block_to_string(b),
        };
        proof {
            assert(new_key@ == alloc_key(name_arg_view(name), *b));
        }
        match self.find_index(&new_key) {
            Some(i) => {
                if self.index[i].1 != *b {
                    proof {
                        assert(ind0[i as int].0 == new_key@ && ind0[i as int].1 != *b);
                    }
                    return Err(crate::RenameError::DuplicateName);
                }
            },
            None => {},
        }
        let ok = self.root.set_name(b, name);
        proof {
            assert(old(self).root.has_block(*b));
            assert(ok);
        }
        match self.find_index(&old_key) {
            Some(i) => {
                self.index.remove(i);
                self.index.push((new_key, *b));
                proof {
                    let rec1 = (*b, name_arg_view(name));
                    let e1 = (alloc_key(name_arg_view(name), *b), *b);
                    let j2 = choose|j2: int|
                        0 <= j2 < rs0.len() && (#[trigger] rs0[j2]).0 == *b && self.root.recs()
                            == rs0.update(j2, rec1);
                    assert(j2 == j);
                    assert(ind0[i as int].0 == old_key@);
                    assert(entry_has_rec(ind0[i as int], rs0));
                    let jm = choose|jm: int|
                        0 <= jm < rs0.len() && entry_matches(ind0[i as int], #[trigger] rs0[jm]);
                    assert(key_of(rs0[jm]) == key_of(rs0[j]));
                    assert(jm == j);
                    assert(entry_matches(ind0[i as int], rs0[j]));
                    lemma_match_remove(ind0, rs0, i as int, j);
                    // The renamed record re-enters at its old position.
                    assert(rs0.update(j, rec1) =~= rs0.remove(j).insert(j, rec1));
                    assert forall|i1: int|
                        0 <= i1 < ind0.remove(i as int).len() implies (#[trigger] ind0.remove(
                        i as int,
                    )[i1]).0 != e1.0 by {
                        let a = if i1 < i as int {
                            i1
                        } else {
                            i1 + 1
                        };
                        assert(ind0.remove(i as int)[i1] == ind0[a]);
                        if ind0[a].0 == e1.0 {
                            // an entry with the new key exists: it can only
                            // be the renamed record's own entry
                            assert(ind0[a].1 == *b);
                            assert(entry_has_rec(ind0[a], rs0));
                            let ja = choose|ja: int|
                                0 <= ja < rs0.len() && entry_matches(ind0[a], #[trigger] rs0[ja]);
                            assert(rs0[ja].0 == *b);
                            assert(ja == j);
                            assert(key_of(rs0[j]) == ind0[a].0 && key_of(rs0[j]) == ind0[i as int].0);
                            if a < i as int {
                                assert((ind0[a]).0 != (ind0[i as int]).0);
                            } else {
                                assert((ind0[i as int]).0 != (ind0[a]).0);
                            }
                        }
                    }
                    lemma_match_push(ind0.remove(i as int), rs0.remove(j), e1, rec1, j);
                    assert(self.index_pairs() =~= ind0.remove(i as int).push(e1));
                }
                Ok(())
            },
            None => {
                proof {
                    assert(rec_has_entry(ind0, rs0[j]));
                    let im = choose|im: int|
                        0 <= im < ind0.len() && entry_matches(#[trigger] ind0[im], rs0[j]);
                    assert(self.index@[im].0@ == old_key@);
                    assert(false);
                }
                Ok(())
            },
        }
    }

    /// Resolve an identifier to a block: first as a display key in the
    /// index, otherwise as a block in canonical text form.
    pub fn resolve_identifier(&self, identifier: &str) -> (r: Option<IpBlock>)
        requires
            self.inv(),
        ensures
            match r {
                Some(bl) => bl.wf() && ((exists|i: int|
                    0 <= i < self.index_pairs().len() && #[trigger] self.index_pairs()[i] == (
                        identifier@,
                        bl,
                    )) || crate::cidr_text::parsed_block(identifier@) == Some(bl)),
                None => !self.has_key(identifier@) && crate::cidr_text::parsed_block(
                    identifier@,
                ) is None,
            },
    {
        match self.find_by_name(identifier) {
            Some(bl) => {
                proof {
                    lemma_recs_ordered(self.root);
                    let i = choose|i: int|
                        0 <= i < self.index_pairs().len() && #[trigger] self.index_pairs()[i] == (
                            identifier@,
                            bl,
                        );
                    assert(entry_has_rec(self.index_pairs()[i], self.recs()));
                    let j = choose|j: int|
                        0 <= j < self.recs().len() && entry_matches(
                            self.index_pairs()[i],
                            #[trigger] self.recs()[j],
                        );
                    assert(self.recs()[j].0 == bl);
                }
                Some(bl)
            },
            None => crate::cidr_text::parse_block(identifier),
        }
    }

    /// The block filed under the given display key, if any.
    pub fn find_by_name(&self, name: &str) -> (r: Option<IpBlock>)
        ensures
            match r {
                Some(bl) => exists|i: int|
                    0 <= i < self.index_pairs().len() && #[trigger] self.index_pairs()[i] == (
                        name@,
                        bl,
                    ),
                None => !self.has_key(name@),
            },
    {
        let key: String = name.to_owned();
        match self.find_index(&key) {
            Some(i) => {
                proof {
                    assert(self.index_pairs()[i as int] == (name@, self.index@[i as int].1));
                }
                Some(self.index[i].1)
            },
            None => {
                proof {
                    assert forall|i: int|
                        0 <= i < self.index_pairs().len() implies (
                    #[trigger] self.index_pairs()[i]).0 != name@ by {
                        assert(self.index@[i].0@ != key@);
                    }
                }
                None
            },
        }
    }

    /// All display keys, in index order.
    pub fn names(&self) -> (r: Vec<String>)
        ensures
            r@.len() == self.index_pairs().len(),
            forall|i: int| 0 <= i < r@.len() ==> (#[trigger] r@[i])@ == self.index_pairs()[i].0,
    {
        let mut out: Vec<String> = Vec::new();
        let mut i: usize = 0;
        while i < self.index.len()
            invariant
                i <= self.index@.len(),
                out@.len() == i,
                forall|k: int| 0 <= k < i ==> (#[trigger] out@[k])@ == self.index_pairs()[k].0,
            decreases self.index@.len() - i,
        {
            out.push(self.index[i].0.clone());
            i = i + 1;
        }
        out
    }

    /// All index entries, in index order.
    pub fn entries(&self) -> (r: Vec<(String, IpBlock)>)
        ensures
            r@.len() == self.index_pairs().len(),
            forall|i: int|
                0 <= i < r@.len() ==> (#[trigger] r@[i]).0@ == self.index_pairs()[i].0
                    && r@[i].1 == self.index_pairs()[i].1,
    {
        let mut out: Vec<(String, IpBlock)> = Vec::new();
        let mut i: usize = 0;
        while i < self.index.len()
            invariant
                i <= self.index@.len(),
                out@.len() == i,
                forall|k: int|
                    0 <= k < i ==> (#[trigger] out@[k]).0@ == self.index_pairs()[k].0
                        && out@[k].1 == self.index_pairs()[k].1,
            decreases self.index@.len() - i,
        {
            out.push((self.index[i].0.clone(), self.index[i].1));
            i = i + 1;
        }
        out
    }

    /// All records, with their names, in address order.
    pub fn records(&self) -> (r: Vec<CidrRecord>)
        requires
            self.inv(),
        ensures
            recs_view(r@) == self.recs(),
    {
        let mut out: Vec<CidrRecord> = Vec::new();
        proof {
            assert(recs_view(out@) =~= Seq::<Rec>::empty());
        }
        self.root.append_records(&mut out);
        proof {
            assert(recs_view(out@) =~= self.recs());
        }
        out
    }

    /// All allocated blocks, in address order.
    pub fn cidrs(&self) -> (r: Vec<IpBlock>)
        requires
            self.inv(),
        ensures
            r@.len() == self.recs().len(),
            forall|i: int| 0 <= i < r@.len() ==> #[trigger] r@[i] == self.recs()[i].0,
    {
        let records = self.records();
        let mut out: Vec<IpBlock> = Vec::new();
        let mut i: usize = 0;
        while i < records.len()
            invariant
                i <= records@.len(),
                recs_view(records@) == self.recs(),
                out@.len() == i,
                forall|k: int| 0 <= k < i ==> #[trigger] out@[k] == self.recs()[k].0,
            decreases records@.len() - i,
        {
            proof {
                assert(self.recs()[i as int] == records@[i as int].view_rec());
            }
            out.push(records[i].cidr);
            i = i + 1;
        }
        out
    }

    /// How many blocks are allocated.
    pub fn allocated_count(&self) -> (r: usize)
        requires
            self.inv(),
        ensures
            r == self.recs().len(),
    {
        self.index.len()
    }

    /// How many allocations carry an explicit name.
    pub fn named_count(&self) -> (r: usize)
        requires
            self.inv(),
        ensures
            r == count_named(self.recs()),
    {
        let records = self.records();
        let mut n: usize = 0;
        let mut i: usize = 0;
        while i < records.len()
            invariant
                i <= records@.len(),
                recs_view(records@) == self.recs(),
                n <= i,
                n == count_named(self.recs().take(i as int)),
            decreases records@.len() - i,
        {
            proof {
                assert(self.recs().take(i + 1).drop_last() =~= self.recs().take(i as int));
                assert(self.recs().take(i + 1).last() == self.recs()[i as int]);
                assert(self.recs()[i as int] == records@[i as int].view_rec());
            }
            if records[i].name.is_some() {
                n = n + 1;
            }
            i = i + 1;
        }
        proof {
            assert(self.recs().take(records@.len() as int) =~= self.recs());
        }
        n
    }

    /// The largest host width an allocation request could currently get,
    /// or 0 when nothing is free.
    pub fn max_available_bits(&self) -> (r: u8)
        requires
            self.inv(),
        ensures
            r as int == if self.root.max_free() < 0 {
                0
            } else {
                self.root.max_free()
            },
            self.root.max_free() <= self.root.cidr.host_bits(),
    {
        self.root.max_free_len()
    }
}

/// A set of named, fully independent address spaces.
pub struct MemorySubnetGarden {
    pub spaces: Vec<(String, MemorySpace)>,
}

impl MemorySubnetGarden {
    /// The garden invariant: every space satisfies its own invariant and
    /// space names are unique.
    pub open spec fn inv(self) -> bool {
        &&& forall|i: int| 0 <= i < self.spaces@.len() ==> (#[trigger] self.spaces@[i]).1.inv()
        &&& forall|i1: int, i2: int|
            0 <= i1 < i2 < self.spaces@.len() ==> (#[trigger] self.spaces@[i1]).0@ != (
            #[trigger] self.spaces@[i2]).0@
    }

    /// Whether a space of the given name exists.
    pub open spec fn has_space(self, name: Seq<char>) -> bool {
        exists|i: int| 0 <= i < self.spaces@.len() && (#[trigger] self.spaces@[i]).0@ == name
    }

    /// An empty garden.
    pub fn new() -> (r: MemorySubnetGarden)
        ensures
            r.inv(),
            r.spaces@.len() == 0,
    {
        MemorySubnetGarden { spaces: Vec::new() }
    }

    /// How many spaces the garden holds.
    pub fn space_count(&self) -> (r: usize)
        ensures
            r == self.spaces@.len(),
    {
        self.spaces.len()
    }

    /// Position of the space with the given name, if any.
    fn find_space_index(&self, key: &String) -> (r: Option<usize>)
        ensures
            match r {
                Some(i) => i < self.spaces@.len() && self.spaces@[i as int].0@ == key@,
                None => forall|i: int|
                    0 <= i < self.spaces@.len() ==> (#[trigger] self.spaces@[i]).0@ != key@,
            },
    {
        let mut i: usize = 0;
        while i < self.spaces.len()
            invariant
                i <= self.spaces@.len(),
                forall|k: int| 0 <= k < i ==> (#[trigger] self.spaces@[k]).0@ != key@,
            decreases self.spaces@.len() - i,
        {
            if self.spaces[i].0 == *key {
                return Some(i);
            }
            i = i + 1;
        }
        None
    }

    /// Create a space named `name` over the block `cidr`.  Fails with
    /// `DuplicateObject` when the name is taken, leaving the garden
    /// unchanged.
    pub fn new_space(&mut self, name: &str, cidr: IpBlock) -> (r: Result<(), crate::CreateError>)
        requires
            old(self).inv(),
            cidr.wf(),
        ensures
            final(self).inv(),
            match r {
                Ok(()) => {
                    &&& !old(self).has_space(name@)
                    &&& final(self).spaces@.len() == old(self).spaces@.len() + 1
                    &&& forall|k: int|
                        0 <= k < old(self).spaces@.len() ==> final(self).spaces@[k] == old(
                            self,
                        ).spaces@[k]
                    &&& final(self).spaces@.last().0@ == name@
                    &&& final(self).spaces@.last().1.base() == cidr
                    &&& final(self).spaces@.last().1.recs() == Seq::<Rec>::empty()
                    &&& final(self).spaces@.last().1.index_pairs() == Seq::<
                        (Seq<char>, IpBlock),
                    >::empty()
                },
                Err(crate::CreateError::DuplicateObject) => {
                    &&& *final(self) == *old(self)
                    &&& old(self).has_space(name@)
                },
            },
    {
        let key: String = name.to_owned();
        match self.find_space_index(&key) {
            Some(i) => {
                proof {
                    assert(self.spaces@[i as int].0@ == name@);
                }
                Err(crate::CreateError::DuplicateObject)
            },
            None => {
                self.spaces.push((key, MemorySpace::new(cidr)));
                Ok(())
            },
        }
    }

    /// Remove the space named `name`.  Fails with `NoSuchObject` when no
    /// such space exists, leaving the garden unchanged.
    pub fn remove_space(&mut self, name: &str) -> (r: Result<(), crate::RemoveError>)
        requires
            old(self).inv(),
        ensures
            final(self).inv(),
            match r {
                Ok(()) => exists|i: int|
                    {
                        &&& 0 <= i < old(self).spaces@.len()
                        &&& (#[trigger] old(self).spaces@[i]).0@ == name@
                        &&& final(self).spaces@ == old(self).spaces@.remove(i)
                    },
                Err(crate::RemoveError::NoSuchObject) => {
                    &&& *final(self) == *old(self)
                    &&& !old(self).has_space(name@)
                },
            },
    {
        let key: String = name.to_owned();
        match self.find_space_index(&key) {
            Some(i) => {
                self.spaces.remove(i);
                Ok(())
            },
            None => Err(crate::RemoveError::NoSuchObject),
        }
    }

    /// The space named `name`, if any.
    pub fn space(&self, name: &str) -> (r: Option<&MemorySpace>)
        ensures
            match r {
                Some(sp) => exists|i: int|
                    {
                        &&& 0 <= i < self.spaces@.len()
                        &&& (#[trigger] self.spaces@[i]).0@ == name@
                        &&& *sp == self.spaces@[i].1
                    },
                None => !self.has_space(name@),
            },
    {
        let key: String = name.to_owned();
        match self.find_space_index(&key) {
            Some(i) => Some(&self.spaces[i].1),
            None => None,
        }
    }

    /// The space named `name`, for mutation, if any.
    pub fn space_mut(&mut self, name: &str) -> (r: Option<&mut MemorySpace>)
        requires
            old(self).inv(),
        ensures
            match r {
                Some(sp) => exists|i: int|
                    {
                        &&& 0 <= i < old(self).spaces@.len()
                        &&& (#[trigger] old(self).spaces@[i]).0@ == name@
                        &&& *sp == old(self).spaces@[i].1
                        &&& final(self).spaces@ == old(self).spaces@.update(
                            i,
                            (old(self).spaces@[i].0, *final(sp)),
                        )
                        &&& (final(sp).inv() ==> final(self).inv())
                    },
                None => *final(self) == *old(self) && !old(self).has_space(name@),
            },
    {
        let key: String = name.to_owned();
        match self.find_space_index(&key) {
            Some(i) => {
                let ghost iv = i as int;
                let sp = &mut self.spaces[i].1;
                proof {
                    assert forall|k1: int, k2: int|
                        0 <= k1 < k2 < old(self).spaces@.update(
                            iv,
                            (old(self).spaces@[iv].0, *final(sp)),
                        ).len() implies (#[trigger] old(self).spaces@.update(
                        iv,
                        (old(self).spaces@[iv].0, *final(sp)),
                    )[k1]).0@ != (#[trigger] old(self).spaces@.update(
                        iv,
                        (old(self).spaces@[iv].0, *final(sp)),
                    )[k2]).0@ by {
                        assert(old(self).spaces@[k1].0@ != old(self).spaces@[k2].0@);
                    }
                }
                Some(sp)
            },
            None => None,
        }
    }

    /// The names of all spaces, in creation order.
    pub fn space_names(&self) -> (r: Vec<String>)
        ensures
            r@.len() == self.spaces@.len(),
            forall|i: int| 0 <= i < r@.len() ==> (#[trigger] r@[i])@ == self.spaces@[i].0@,
    {
        let mut out: Vec<String> = Vec::new();
        let mut i: usize = 0;
        while i < self.spaces.len()
            invariant
                i <= self.spaces@.len(),
                out@.len() == i,
                forall|k: int| 0 <= k < i ==> (#[trigger] out@[k])@ == self.spaces@[k].0@,
            decreases self.spaces@.len() - i,
        {
            out.push(self.spaces[i].0.clone());
            i = i + 1;
        }
        out
    }

    /// References to all spaces, in creation order.
    pub fn spaces(&self) -> (r: Vec<&MemorySpace>)
        ensures
            r@.len() == self.spaces@.len(),
            forall|i: int| 0 <= i < r@.len() ==> *(#[trigger] r@[i]) == self.spaces@[i].1,
    {
        let mut out: Vec<&MemorySpace> = Vec::new();
        let mut i: usize = 0;
        while i < self.spaces.len()
            invariant
                i <= self.spaces@.len(),
                out@.len() == i,
                forall|k: int| 0 <= k < i ==> *(#[trigger] out@[k]) == self.spaces@[k].1,
            decreases self.spaces@.len() - i,
        {
            out.push(&self.spaces[i].1);
            i = i + 1;
        }
        out
    }

    /// Name and space pairs, in creation order.
    pub fn entries(&self) -> (r: Vec<(String, &MemorySpace)>)
        ensures
            r@.len() == self.spaces@.len(),
            forall|i: int|
                0 <= i < r@.len() ==> (#[trigger] r@[i]).0@ == self.spaces@[i].0@ && *(
                r@[i].1) == self.spaces@[i].1,
    {
        let mut out: Vec<(String, &MemorySpace)> = Vec::new();
        let mut i: usize = 0;
        while i < self.spaces.len()
            invariant
                i <= self.spaces@.len(),
                out@.len() == i,
                forall|k: int|
                    0 <= k < i ==> (#[trigger] out@[k]).0@ == self.spaces@[k].0@ && *(
                    out@[k].1) == self.spaces@[k].1,
            decreases self.spaces@.len() - i,
        {
            out.push((self.spaces[i].0.clone(), &self.spaces[i].1));
            i = i + 1;
        }
        out
    }
}

/// A garden with one IPv4 space "test4" over 10.20.0.0/16 and one IPv6
/// space "test6" over 1:2:3:4:a:14::/112, as the test suite uses.
pub fn new_test_space() -> (g: MemorySubnetGarden)
    ensures
        g.inv(),
        g.spaces@.len() == 2,
        g.spaces@[0].0@ == "test4"@,
        g.spaces@[1].0@ == "test6"@,
        g.spaces@[0].1.base().family == crate::block::Family::V4,
        g.spaces@[0].1.base().addr == crate::block::v4_addr(10, 20, 0, 0),
        g.spaces@[0].1.base().prefix == 16,
        g.spaces@[1].1.base().family == crate::block::Family::V6,
        g.spaces@[1].1.base().prefix == 112,
        g.spaces@[0].1.recs() == Seq::<Rec>::empty(),
        g.spaces@[1].1.recs() == Seq::<Rec>::empty(),
{
    let mut instance = MemorySubnetGarden::new();
    let c4 = match IpBlock::v4(10, 20, 0, 0, 16) {
        Some(b) => b,
        None => {
            proof {
                vstd::arithmetic::power2::lemma2_to64();
                assert(crate::block::v4_addr(10, 20, 0, 0) == 0xa140000);
            }
            proof {
                assert(false);
            }
            vstd::pervasive::unreached()
        },
    };
    let r4 = instance.new_space("test4", c4);
    proof {
        assert(r4 is Ok);
    }
    let segs: [u16; 8] = [1, 2, 3, 4, 10, 20, 0, 0];
    let c6 = match IpBlock::v6(&segs, 112) {
        Some(b) => b,
        None => {
            proof {
                vstd::arithmetic::power2::lemma2_to64();
                let s = segs@;
                assert(s.last() == 0);
                assert(crate::block::v6_addr(s) == crate::block::v6_addr(s.drop_last()) * 0x10000
                    + 0);
                vstd::arithmetic::div_mod::lemma_mod_multiples_basic(
                    crate::block::v6_addr(s.drop_last()),
                    0x10000,
                );
            }
            proof {
                assert(false);
            }
            vstd::pervasive::unreached()
        },
    };
    proof {
        reveal_strlit("test4");
        reveal_strlit("test6");
        assert("test4"@ != "test6"@) by {
            assert("test4"@[4] == '4');
            assert("test6"@[4] == '6');
        }
    }
    let r6 = instance.new_space("test6", c6);
    proof {
        assert(r6 is Ok);
    }
    instance
}

/// Law: a block handed out by an allocation of host width `bits` has
/// exactly that width, and immediately afterwards its display key is filed
/// and resolves to exactly that block.
pub proof fn lemma_allocate_then_lookup(
    s0: MemorySpace,
    s1: MemorySpace,
    bits: u8,
    nv: Option<Seq<char>>,
    b: IpBlock,
)
    requires
        s0.inv(),
        s1.inv(),
        Some(b) == s0.root.lowest_free(bits),
        !s0.has_key(alloc_key(nv, b)),
        exists|j: int| 0 <= j <= s0.recs().len() && s1.recs() == s0.recs().insert(j, (b, nv)),
        s1.index_pairs() == s0.index_pairs().push((alloc_key(nv, b), b)),
    ensures
        b.host_bits() == bits as nat,
        s1.has_key(alloc_key(nv, b)),
        forall|i: int|
            0 <= i < s1.index_pairs().len() && (#[trigger] s1.index_pairs()[i]).0 == alloc_key(
                nv,
                b,
            ) ==> s1.index_pairs()[i].1 == b,
{
    lemma_lowest_free(s0.root, bits);
    let n = s0.index_pairs().len() as int;
    assert(s1.index_pairs()[n] == (alloc_key(nv, b), b));
    assert forall|i: int|
        0 <= i < s1.index_pairs().len() && (#[trigger] s1.index_pairs()[i]).0 == alloc_key(
            nv,
            b,
        ) implies s1.index_pairs()[i].1 == b by {
        if i < n {
            assert(s1.index_pairs()[i] == s0.index_pairs()[i]);
            assert(s0.has_key(alloc_key(nv, b)));
        }
    }
}

/// Law: in any space satisfying the invariant, the allocated blocks are
/// pairwise non-overlapping, and the name index has exactly one entry per
/// allocated block: one entry stands for each record, every entry stands
/// for a record, and no display key appears twice.
pub proof fn lemma_space_consistency(s: MemorySpace)
    requires
        s.inv(),
    ensures
        forall|j1: int, j2: int|
            0 <= j1 < s.recs().len() && 0 <= j2 < s.recs().len() && j1 != j2 ==> !(
            #[trigger] s.recs()[j1]).0.overlaps((#[trigger] s.recs()[j2]).0),
        s.index_pairs().len() == s.recs().len(),
        forall|j: int|
            0 <= j < s.recs().len() ==> rec_has_entry(s.index_pairs(), #[trigger] s.recs()[j]),
        forall|i: int|
            0 <= i < s.index_pairs().len() ==> entry_has_rec(
                #[trigger] s.index_pairs()[i],
                s.recs(),
            ),
        forall|i1: int, i2: int|
            0 <= i1 < i2 < s.index_pairs().len() ==> (#[trigger] s.index_pairs()[i1]).0 != (
            #[trigger] s.index_pairs()[i2]).0,
{
    lemma_recs_disjoint(s.root);
}

/// Law: freeing an allocation and then allocating the same host width
/// again, with nothing in between, restores the previous records and
/// display keys — provided the freed block is the allocator's lowest-fit
/// choice afterwards, as it is when no free block of that width lies below
/// it.  (Freeing a block above a free block of equal width is the one case
/// where the allocator places the new block elsewhere.)
#[verifier::rlimit(100)]
pub proof fn lemma_free_then_reallocate(
    s0: MemorySpace,
    s1: MemorySpace,
    s2: MemorySpace,
    b: IpBlock,
    nv: Option<Seq<char>>,
    bits: u8,
)
    requires
        s0.inv(),
        s1.inv(),
        s2.inv(),
        bits as nat == b.host_bits(),
        exists|j: int, i: int|
            {
                &&& 0 <= j < s0.recs().len()
                &&& #[trigger] s0.recs()[j] == (b, nv)
                &&& s1.recs() == s0.recs().remove(j)
                &&& 0 <= i < s0.index_pairs().len()
                &&& entry_matches(#[trigger] s0.index_pairs()[i], s0.recs()[j])
                &&& s1.index_pairs() == s0.index_pairs().remove(i)
            },
        s1.root.lowest_free(bits) == Some(b),
        exists|j: int| 0 <= j <= s1.recs().len() && s2.recs() == s1.recs().insert(j, (b, nv)),
        s2.index_pairs() == s1.index_pairs().push((alloc_key(nv, b), b)),
    ensures
        s2.recs() == s0.recs(),
        s2.index_pairs().to_multiset() == s0.index_pairs().to_multiset(),
{
    lemma_recs_ordered(s0.root);
    lemma_recs_ordered(s2.root);
    let (j, i) = choose|j: int, i: int|
        {
            &&& 0 <= j < s0.recs().len()
            &&& #[trigger] s0.recs()[j] == (b, nv)
            &&& s1.recs() == s0.recs().remove(j)
            &&& 0 <= i < s0.index_pairs().len()
            &&& entry_matches(#[trigger] s0.index_pairs()[i], s0.recs()[j])
            &&& s1.index_pairs() == s0.index_pairs().remove(i)
        };
    let jp = choose|jp: int|
        0 <= jp <= s1.recs().len() && s2.recs() == s1.recs().insert(jp, (b, nv));
    let rs0 = s0.recs();
    let rs2 = s2.recs();
    lemma_sorted_reinsert(rs0, rs2, j, jp, (b, nv));
    assert(rs2 =~= rs0);
    // The index entry that left is exactly the entry that returns.
    assert(s0.index_pairs()[i] == (alloc_key(nv, b), b));
    lemma_remove_then_push(s0.index_pairs(), i, (alloc_key(nv, b), b));
}

/// Removing an entry and appending it again leaves the entries unchanged
/// as a multiset.
proof fn lemma_remove_then_push(ind: Seq<(Seq<char>, IpBlock)>, i: int, e: (Seq<char>, IpBlock))
    requires
        0 <= i < ind.len(),
        ind[i] == e,
    ensures
        ind.remove(i).push(e).to_multiset() == ind.to_multiset(),
{
    broadcast use vstd::seq_lib::group_to_multiset_ensures;

    assert(ind.remove(i).to_multiset() =~= ind.to_multiset().remove(e));
    assert(ind.remove(i).push(e).to_multiset() =~= ind.remove(i).to_multiset().insert(e));
    assert(ind.contains(e));
    assert(ind.to_multiset().count(e) > 0);
    assert(ind.remove(i).push(e).to_multiset() =~= ind.to_multiset());
}

/// Removing a record from an address-ordered sequence and re-inserting it
/// at an order-respecting position puts it back where it was.
proof fn lemma_sorted_reinsert(rs0: Seq<Rec>, rs2: Seq<Rec>, j: int, jp: int, rec: Rec)
    requires
        0 <= j < rs0.len(),
        rs0[j] == rec,
        0 <= jp <= rs0.len() - 1,
        rs2 == rs0.remove(j).insert(jp, rec),
        forall|k: int| 0 <= k < rs0.len() ==> (#[trigger] rs0[k]).0.wf(),
        forall|k1: int, k2: int|
            0 <= k1 < k2 < rs0.len() ==> (#[trigger] rs0[k1]).0.end() <= (#[trigger] rs0[k2]).0.addr,
        forall|k1: int, k2: int|
            0 <= k1 < k2 < rs2.len() ==> (#[trigger] rs2[k1]).0.end() <= (#[trigger] rs2[k2]).0.addr,
    ensures
        jp == j,
{
    let rs1 = rs0.remove(j);
    if jp < j {
        assert(rs2[jp] == rec);
        assert(rs2[jp + 1] == rs1[jp]);
        assert(rs1[jp] == rs0[jp]);
        assert(rec.0.end() <= rs0[jp].0.addr);
        assert(rs0[jp].0.end() <= rs0[j].0.addr);
        crate::block::lemma_end_bound(rec.0);
        crate::block::lemma_end_bound(rs0[jp].0);
        assert(false);
    }
    if jp > j {
        assert(rs2[jp] == rec);
        assert(rs2[jp - 1] == rs1[jp - 1]);
        assert(rs1[jp - 1] == rs0[jp]);
        assert(rs0[jp].0.end() <= rec.0.addr);
        assert(rs0[j].0.end() <= rs0[jp].0.addr);
        crate::block::lemma_end_bound(rec.0);
        crate::block::lemma_end_bound(rs0[jp].0);
        assert(false);
    }
}

} // verus!
