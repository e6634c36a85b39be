use vstd::prelude::*;

verus! {

use vstd::string::StrSliceExecFns;

/// Lexicographic order on character sequences, by code point.  Because
/// UTF-8 preserves code-point order, this is also the byte-wise order in
/// which string keys sort.
pub open spec fn chars_le(x: Seq<char>, y: Seq<char>) -> bool
    decreases x.len(),
{
    if x.len() == 0 {
        true
    } else if y.len() == 0 {
        false
    } else if (x[0] as u32) != (y[0] as u32) {
        (x[0] as u32) < (y[0] as u32)
    } else {
        chars_le(x.drop_first(), y.drop_first())
    }
}

/// The order is total.
pub proof fn lemma_chars_le_total(x: Seq<char>, y: Seq<char>)
    ensures
        chars_le(x, y) || chars_le(y, x),
    decreases x.len(),
{
    if x.len() > 0 && y.len() > 0 && (x[0] as u32) == (y[0] as u32) {
        lemma_chars_le_total(x.drop_first(), y.drop_first());
    }
}

/// The order is transitive.
pub proof fn lemma_chars_le_trans(x: Seq<char>, y: Seq<char>, z: Seq<char>)
    requires
        chars_le(x, y),
        chars_le(y, z),
    ensures
        chars_le(x, z),
    decreases x.len(),
{
    if x.len() > 0 && y.len() > 0 && z.len() > 0 && (x[0] as u32) == (y[0] as u32) && (
    y[0] as u32) == (z[0] as u32) {
        lemma_chars_le_trans(x.drop_first(), y.drop_first(), z.drop_first());
    }
}

/// Comparing sequences with a shared prefix reduces to comparing what
/// follows the prefix.
proof fn lemma_chars_le_skip(x: Seq<char>, y: Seq<char>, i: int)
    requires
        0 <= i <= x.len(),
        i <= y.len(),
        forall|k: int| 0 <= k < i ==> (x[k] as u32) == (y[k] as u32),
    ensures
        chars_le(x, y) == chars_le(x.skip(i), y.skip(i)),
    decreases i,
{
    if i == 0 {
        assert(x.skip(0) =~= x);
        assert(y.skip(0) =~= y);
    } else {
        assert(x.len() > 0 && y.len() > 0 && (x[0] as u32) == (y[0] as u32));
        lemma_chars_le_skip(x.drop_first(), y.drop_first(), i - 1);
        assert(x.drop_first().skip(i - 1) =~= x.skip(i));
        assert(y.drop_first().skip(i - 1) =~= y.skip(i));
    }
}

/// Whether `a` sorts at or before `b`, in lexicographic key order.
fn key_le(a: &String, b: &String) -> (r: bool)
    ensures
        r == chars_le(a@, b@),
{
    let an = a.as_str().unicode_len();
    let bn = b.as_str().unicode_len();
    let mut i: usize = 0;
    loop
        invariant
            i <= an,
            i <= bn,
            an == a@.len(),
            bn == b@.len(),
            forall|k: int| 0 <= k < i ==> (a@[k] as u32) == (b@[k] as u32),
        decreases an - i,
    {
        proof {
            lemma_chars_le_skip(a@, b@, i as int);
        }
        if i >= an {
            proof {
                assert(a@.skip(i as int).len() == 0);
            }
            return true;
        }
        if i >= bn {
            proof {
                assert(a@.skip(i as int).len() > 0);
                assert(b@.skip(i as int).len() == 0);
            }
            return false;
        }
        let ca = a.as_str().get_char(i);
        let cb = b.as_str().get_char(i);
        proof {
            assert(a@.skip(i as int)[0] == a@[i as int]);
            assert(b@.skip(i as int)[0] == b@[i as int]);
        }
        if (ca as u32) != (cb as u32) {
            return (ca as u32) < (cb as u32);
        }
        i = i + 1;
    }
}

/// The view of a key/value string pair.
pub open spec fn pair_view(e: (String, String)) -> (Seq<char>, Seq<char>) {
    (e.0@, e.1@)
}

/// The view of a sequence of key/value string pairs.
pub open spec fn pairs_view(es: Seq<(String, String)>) -> Seq<(Seq<char>, Seq<char>)> {
    es.map_values(|e: (String, String)| pair_view(e))
}

/// The pair is one of the first `n` pairs of `v`, viewed as strings.
pub open spec fn from_input(e: (String, String), v: Seq<(String, String)>, n: int) -> bool {
    exists|t: int| 0 <= t < n && pair_view(e) == pair_view(#[trigger] v[t])
}

/// The pair appears somewhere in `out`, viewed as strings.
pub open spec fn in_output(e: (String, String), out: Seq<(String, String)>) -> bool {
    exists|k: int| 0 <= k < out.len() && pair_view(#[trigger] out[k]) == pair_view(e)
}

/// Sort key/value pairs by key, lexicographically ascending.  The result
/// holds the same pairs: each output pair is an input pair and each input
/// pair appears in the output.
#[verifier::rlimit(100)]
pub fn sort_entries(v: &Vec<(String, String)>) -> (r: Vec<(String, String)>)
    ensures
        r@.len() == v@.len(),
        forall|k1: int, k2: int|
            0 <= k1 < k2 < r@.len() ==> chars_le(
                (#[trigger] r@[k1]).0@,
                (#[trigger] r@[k2]).0@,
            ),
        forall|k: int| 0 <= k < r@.len() ==> from_input(#[trigger] r@[k], v@, v@.len() as int),
        forall|t: int| 0 <= t < v@.len() ==> in_output(#[trigger] v@[t], r@),
        (forall|t1: int, t2: int|
            0 <= t1 < t2 < v@.len() ==> pair_view(#[trigger] v@[t1]) != pair_view(
                #[trigger] v@[t2],
            )) ==> (forall|k1: int, k2: int|
            0 <= k1 < k2 < r@.len() ==> pair_view(#[trigger] r@[k1]) != pair_view(
                #[trigger] r@[k2],
            )),
{
    let mut out: Vec<(String, String)> = Vec::new();
    let mut n: usize = 0;
    while n < v.len()
        invariant
            n <= v@.len(),
            out@.len() == n,
            forall|k1: int, k2: int|
                0 <= k1 < k2 < out@.len() ==> chars_le(
                    (#[trigger] out@[k1]).0@,
                    (#[trigger] out@[k2]).0@,
                ),
            forall|k: int| 0 <= k < out@.len() ==> from_input(#[trigger] out@[k], v@, n as int),
            forall|t: int| 0 <= t < n ==> in_output(#[trigger] v@[t], out@),
            (forall|t1: int, t2: int|
                0 <= t1 < t2 < v@.len() ==> pair_view(#[trigger] v@[t1]) != pair_view(
                    #[trigger] v@[t2],
                )) ==> (forall|k1: int, k2: int|
                0 <= k1 < k2 < out@.len() ==> pair_view(#[trigger] out@[k1]) != pair_view(
                    #[trigger] out@[k2],
                )),
        decreases v@.len() - n,
    {
        let e: (String, String) = (v[n].0.clone(), v[n].1.clone());
        let ghost out0 = out@;
        let mut pos: usize = 0;
        while pos < out.len() && !key_le(&e.0, &out[pos].0)
            invariant
                pos <= out@.len(),
                out@ == out0,
                forall|p: int| 0 <= p < pos ==> !chars_le(e.0@, (#[trigger] out@[p]).0@),
            decreases out@.len() - pos,
        {
            pos = pos + 1;
        }
        proof {
            assert forall|p: int| 0 <= p < pos implies chars_le((#[trigger] out@[p]).0@, e.0@) by {
                lemma_chars_le_total(e.0@, out@[p].0@);
            }
        }
        let ghost posv = pos as int;
        let ghost ev = e;
        out.insert(pos, e);
        proof {
            lemma_insert_sorted(out0, out@, posv, ev);
            lemma_insert_matches(out0, out@, v@, n as int, posv, ev);
            if forall|t1: int, t2: int|
                0 <= t1 < t2 < v@.len() ==> pair_view(#[trigger] v@[t1]) != pair_view(
                    #[trigger] v@[t2],
                ) {
                lemma_insert_distinct(out0, out@, v@, n as int, posv, ev);
            }
        }
        n = n + 1;
    }
    out
}


/// One insertion-sort step, sortedness: inserting a pair at an
/// order-respecting position keeps the output sorted.
proof fn lemma_insert_sorted(
    out0: Seq<(String, String)>,
    out1: Seq<(String, String)>,
    pos: int,
    e: (String, String),
)
    requires
        0 <= pos <= out0.len(),
        out1 == out0.insert(pos, e),
        forall|k1: int, k2: int|
            0 <= k1 < k2 < out0.len() ==> chars_le(
                (#[trigger] out0[k1]).0@,
                (#[trigger] out0[k2]).0@,
            ),
        forall|p: int| 0 <= p < pos ==> chars_le((#[trigger] out0[p]).0@, e.0@),
        pos < out0.len() ==> chars_le(e.0@, out0[pos].0@),
    ensures
        forall|k1: int, k2: int|
            0 <= k1 < k2 < out1.len() ==> chars_le(
                (#[trigger] out1[k1]).0@,
                (#[trigger] out1[k2]).0@,
            ),
{
    assert forall|k1: int, k2: int|
        0 <= k1 < k2 < out1.len() implies chars_le(
        (#[trigger] out1[k1]).0@,
        (#[trigger] out1[k2]).0@,
    ) by {
        let a1 = if k1 < pos {
            k1
        } else {
            k1 - 1
        };
        let a2 = if k2 < pos {
            k2
        } else {
            k2 - 1
        };
        if k1 == pos {
            if k2 > pos {
                assert(out1[k2] == out0[a2]);
                if pos < out0.len() {
                    if a2 == pos {
                        assert(chars_le(out1[k1].0@, out1[k2].0@));
                    } else {
                        lemma_chars_le_trans(out1[k1].0@, out0[pos].0@, out0[a2].0@);
                    }
                }
            }
        } else if k2 == pos {
            assert(out1[k1] == out0[a1]);
            assert(chars_le(out0[a1].0@, out1[k2].0@));
        } else {
            assert(out1[k1] == out0[a1] && out1[k2] == out0[a2]);
            if a1 == a2 {
                lemma_chars_le_total(out0[a1].0@, out0[a1].0@);
            }
        }
    }
}

/// One insertion-sort step, correspondence: the output pairs are exactly
/// the input pairs seen so far.
proof fn lemma_insert_matches(
    out0: Seq<(String, String)>,
    out1: Seq<(String, String)>,
    v: Seq<(String, String)>,
    n: int,
    pos: int,
    e: (String, String),
)
    requires
        0 <= n < v.len(),
        0 <= pos <= out0.len(),
        out0.len() == n,
        out1 == out0.insert(pos, e),
        pair_view(e) == pair_view(v[n]),
        forall|k: int| 0 <= k < out0.len() ==> from_input(#[trigger] out0[k], v, n),
        forall|t: int| 0 <= t < n ==> in_output(#[trigger] v[t], out0),
    ensures
        forall|k: int| 0 <= k < out1.len() ==> from_input(#[trigger] out1[k], v, n + 1),
        forall|t: int| 0 <= t < n + 1 ==> in_output(#[trigger] v[t], out1),
{
    assert forall|k: int| 0 <= k < out1.len() implies from_input(#[trigger] out1[k], v, n + 1) by {
        if k == pos {
            assert(pair_view(out1[k]) == pair_view(v[n]));
        } else {
            let a = if k < pos {
                k
            } else {
                k - 1
            };
            assert(out1[k] == out0[a]);
            assert(from_input(out0[a], v, n));
            let t = choose|t: int| 0 <= t < n && pair_view(out0[a]) == pair_view(#[trigger] v[t]);
            assert(pair_view(out1[k]) == pair_view(v[t]));
        }
    }
    assert forall|t: int| 0 <= t < n + 1 implies in_output(#[trigger] v[t], out1) by {
        if t == n {
            assert(pair_view(out1[pos]) == pair_view(v[t]));
        } else {
            assert(in_output(v[t], out0));
            let k0 = choose|k0: int|
                0 <= k0 < out0.len() && pair_view(#[trigger] out0[k0]) == pair_view(v[t]);
            let k = if k0 < pos {
                k0
            } else {
                k0 + 1
            };
            assert(out1[k] == out0[k0]);
            assert(pair_view(out1[k]) == pair_view(v[t]));
        }
    }
}

/// One insertion-sort step, distinctness: with pairwise distinct input
/// pairs the output pairs stay pairwise distinct.
proof fn lemma_insert_distinct(
    out0: Seq<(String, String)>,
    out1: Seq<(String, String)>,
    v: Seq<(String, String)>,
    n: int,
    pos: int,
    e: (String, String),
)
    requires
        0 <= n < v.len(),
        0 <= pos <= out0.len(),
        out0.len() == n,
        out1 == out0.insert(pos, e),
        pair_view(e) == pair_view(v[n]),
        forall|k: int| 0 <= k < out0.len() ==> from_input(#[trigger] out0[k], v, n),
        forall|t1: int, t2: int|
            0 <= t1 < t2 < v.len() ==> pair_view(#[trigger] v[t1]) != pair_view(#[trigger] v[t2]),
        forall|k1: int, k2: int|
            0 <= k1 < k2 < out0.len() ==> pair_view(#[trigger] out0[k1]) != pair_view(
                #[trigger] out0[k2],
            ),
    ensures
        forall|k1: int, k2: int|
            0 <= k1 < k2 < out1.len() ==> pair_view(#[trigger] out1[k1]) != pair_view(
                #[trigger] out1[k2],
            ),
{
    assert forall|k1: int, k2: int|
        0 <= k1 < k2 < out1.len() implies pair_view(#[trigger] out1[k1]) != pair_view(
        #[trigger] out1[k2],
    ) by {
        if k1 == pos || k2 == pos {
            let ko = if k1 == pos {
                k2
            } else {
                k1
            };
            let a = if ko < pos {
                ko
            } else {
                ko - 1
            };
            assert(out1[ko] == out0[a]);
            assert(from_input(out0[a], v, n));
            let t = choose|t: int| 0 <= t < n && pair_view(out0[a]) == pair_view(#[trigger] v[t]);
            assert(pair_view(v[t]) != pair_view(v[n]));
        } else {
            let a1 = if k1 < pos {
                k1
            } else {
                k1 - 1
            };
            let a2 = if k2 < pos {
                k2
            } else {
                k2 - 1
            };
            assert(out1[k1] == out0[a1] && out1[k2] == out0[a2]);
        }
    }
}

use crate::AllocateError;
use crate::block::IpBlock;
use crate::cidr_text::block_text;
use crate::cidr_text::block_to_string;
use crate::cidr_text::parse_block;
use crate::cidr_text::parsed_block;
use crate::memory::MemorySpace;
use crate::memory::alloc_key;
use crate::memory::entry_has_rec;
use crate::memory::rec_has_entry;
use crate::memory::key_of;
use crate::memory::lemma_match_keys_unique;
use crate::subspace::Rec;
use crate::subspace::lemma_can_claim_tidy;
use crate::subspace::lemma_recs_disjoint;
use crate::subspace::lemma_recs_ordered;

/// Why a persisted entry set cannot be rebuilt into a space.
#[derive(Debug, PartialEq, Eq, Structural, Clone, Copy)]
pub enum DecodeError {
    /// An entry's value does not denote a block.
    UnparsableBlock,
    /// An entry's block lies outside the base block or overlaps another
    /// entry's block.
    NoSpaceAvailable,
    /// Two entries carry the same key.
    DuplicateName,
}

/// The record a persisted entry denotes: unnamed when the key is the
/// block's own canonical text, named with the key otherwise.
pub open spec fn derived_rec(k: Seq<char>, b: IpBlock) -> Rec {
    if k == block_text(b) {
        (b, None)
    } else {
        (b, Some(k))
    }
}

/// The block a persisted entry denotes (meaningful when its value parses).
pub open spec fn entry_block(e: (Seq<char>, Seq<char>)) -> IpBlock {
    parsed_block(e.1)->0
}

/// A persisted entry set can be rebuilt into a space over `base`: every
/// value parses as a block within `base`, keys are unique, and no two
/// blocks overlap.
pub open spec fn rebuildable(base: IpBlock, es: Seq<(Seq<char>, Seq<char>)>) -> bool {
    &&& forall|k: int| 0 <= k < es.len() ==> parsed_block((#[trigger] es[k]).1) is Some
    &&& forall|k: int| 0 <= k < es.len() ==> base.contains_spec(entry_block(#[trigger] es[k]))
    &&& forall|t: int, k: int|
        0 <= t < es.len() && 0 <= k < es.len() && t != k ==> (#[trigger] es[t]).0 != (
        #[trigger] es[k]).0
    &&& forall|t: int, k: int|
        0 <= t < es.len() && 0 <= k < es.len() && t != k ==> !entry_block(
            #[trigger] es[t],
        ).overlaps(entry_block(#[trigger] es[k]))
}

/// The records hold the entry's derived record.
pub open spec fn rec_listed(rs: Seq<Rec>, e: (Seq<char>, Seq<char>)) -> bool {
    exists|j: int| 0 <= j < rs.len() && #[trigger] rs[j] == derived_rec(e.0, entry_block(e))
}

/// The record is the derived record of one of the first `n` entries.
pub open spec fn rec_from_first(r: Rec, es: Seq<(Seq<char>, Seq<char>)>, n: int) -> bool {
    exists|k: int|
        0 <= k < n && r == derived_rec((#[trigger] es[k]).0, entry_block(es[k]))
}

/// The entry serializes one of the records: its key is the record's
/// display key, its value the record's block in canonical text, and that
/// text parses back to the block.
pub open spec fn entry_lists_rec(e: (Seq<char>, Seq<char>), rs: Seq<Rec>) -> bool {
    exists|j: int|
        0 <= j < rs.len() && e == (key_of(#[trigger] rs[j]), block_text(rs[j].0)) && parsed_block(
            e.1,
        ) == Some(rs[j].0)
}

/// Some entry serializes the record.
pub open spec fn rec_listed_entry(r: Rec, es: Seq<(Seq<char>, Seq<char>)>) -> bool {
    exists|k: int|
        0 <= k < es.len() && #[trigger] es[k] == (key_of(r), block_text(r.0)) && parsed_block(
            es[k].1,
        ) == Some(r.0)
}

/// Serialize a space as key/value string pairs: each record's display key
/// mapped to its block's canonical text, sorted lexicographically by key
/// for deterministic output.
#[verifier::rlimit(100)]
pub fn to_entries(s: &MemorySpace) -> (r: Vec<(String, String)>)
    requires
        s.inv(),
    ensures
        r@.len() == s.recs().len(),
        forall|k1: int, k2: int|
            0 <= k1 < k2 < r@.len() ==> chars_le((#[trigger] r@[k1]).0@, (#[trigger] r@[k2]).0@),
        forall|k: int|
            0 <= k < r@.len() ==> entry_lists_rec(pair_view(#[trigger] r@[k]), s.recs()),
        forall|j: int|
            0 <= j < s.recs().len() ==> rec_listed_entry(#[trigger] s.recs()[j], pairs_view(r@)),
        forall|k1: int, k2: int|
            0 <= k1 < k2 < r@.len() ==> pair_view(#[trigger] r@[k1]) != pair_view(
                #[trigger] r@[k2],
            ),
{
    proof {
        lemma_recs_disjoint(s.root);
        lemma_recs_ordered(s.root);
        lemma_match_keys_unique(s.index_pairs(), s.recs());
    }
    let records = s.records();
    let mut raw: Vec<(String, String)> = Vec::new();
    let mut j: usize = 0;
    while j < records.len()
        invariant
            s.inv(),
            j <= records@.len(),
            crate::subspace::recs_view(records@) == s.recs(),
            raw@.len() == j,
            forall|t: int|
                0 <= t < j ==> pair_view(#[trigger] raw@[t]) == (
                    key_of(s.recs()[t]),
                    block_text(s.recs()[t].0),
                ) && parsed_block(raw@[t].1@) == Some(s.recs()[t].0),
            forall|t: int| 0 <= t < s.recs().len() ==> (#[trigger] s.recs()[t]).0.wf(),
        decreases records@.len() - j,
    {
        proof {
            assert(s.recs()[j as int] == records@[j as int].view_rec());
        }
        let text = block_to_string(&records[j].cidr);
        let key: String = match &records[j].name {
            Some(nm) => nm.clone(),
            None => text.clone(),
        };
        raw.push((key, text));
        j = j + 1;
    }
    proof {
        lemma_match_keys_unique(s.index_pairs(), s.recs());
        // raw pairs are pairwise distinct because display keys are unique
        assert forall|t1: int, t2: int|
            0 <= t1 < t2 < raw@.len() implies pair_view(#[trigger] raw@[t1]) != pair_view(
            #[trigger] raw@[t2],
        ) by {
            assert(key_of(s.recs()[t1]) == key_of(s.recs()[t2]) ==> t1 == t2);
        }
    }
    let out = sort_entries(&raw);
    proof {
        assert forall|k: int| 0 <= k < out@.len() implies entry_lists_rec(
            pair_view(#[trigger] out@[k]),
            s.recs(),
        ) by {
            assert(from_input(out@[k], raw@, raw@.len() as int));
            let t = choose|t: int|
                0 <= t < raw@.len() && pair_view(out@[k]) == pair_view(#[trigger] raw@[t]);
            assert(pair_view(out@[k]) == (key_of(s.recs()[t]), block_text(s.recs()[t].0)));
        }
        assert forall|j2: int| 0 <= j2 < s.recs().len() implies rec_listed_entry(
            #[trigger] s.recs()[j2],
            pairs_view(out@),
        ) by {
            assert(in_output(raw@[j2], out@));
            let k = choose|k: int|
                0 <= k < out@.len() && pair_view(#[trigger] out@[k]) == pair_view(raw@[j2]);
            assert(pairs_view(out@)[k] == pair_view(out@[k]));
            assert(pairs_view(out@)[k] == (key_of(s.recs()[j2]), block_text(s.recs()[j2].0)));
        }
    }
    out
}

/// Rebuild a space over `base` from persisted key/value pairs, claiming
/// each entry's block in turn under its derived name.  Succeeds exactly on
/// rebuildable entry sets, in any entry order.
#[verifier::rlimit(100)]
pub fn from_entries(base: IpBlock, entries: &Vec<(String, String)>) -> (r: Result<
    MemorySpace,
    DecodeError,
>)
    requires
        base.wf(),
    ensures
        match r {
            Ok(sp) => {
                &&& rebuildable(base, pairs_view(entries@))
                &&& sp.inv()
                &&& sp.base() == base
                &&& sp.root.tidy()
                &&& sp.recs().len() == entries@.len()
                &&& forall|k: int|
                    0 <= k < entries@.len() ==> rec_listed(
                        sp.recs(),
                        pair_view(#[trigger] entries@[k]),
                    )
                &&& forall|j: int|
                    0 <= j < sp.recs().len() ==> rec_from_first(
                        #[trigger] sp.recs()[j],
                        pairs_view(entries@),
                        entries@.len() as int,
                    )
            },
            Err(_) => !rebuildable(base, pairs_view(entries@)),
        },
{
    let ghost es = pairs_view(entries@);
    let mut sp = MemorySpace::new(base);
    let mut k: usize = 0;
    while k < entries.len()
        invariant
            base.wf(),
            sp.inv(),
            sp.base() == base,
            sp.root.tidy(),
            k <= entries@.len(),
            es == pairs_view(entries@),
            sp.recs().len() == k,
            forall|t: int| 0 <= t < k ==> parsed_block((#[trigger] es[t]).1) is Some,
            forall|t: int| 0 <= t < k ==> base.contains_spec(entry_block(#[trigger] es[t])),
            forall|t1: int, t2: int|
                0 <= t1 < t2 < k ==> (#[trigger] es[t1]).0 != (#[trigger] es[t2]).0,
            forall|t1: int, t2: int|
                0 <= t1 < t2 < k ==> !entry_block(#[trigger] es[t1]).overlaps(
                    entry_block(#[trigger] es[t2]),
                ),
            forall|t: int| 0 <= t < k ==> rec_listed(sp.recs(), #[trigger] es[t]),
            forall|j: int|
                0 <= j < sp.recs().len() ==> rec_from_first(#[trigger] sp.recs()[j], es, k as int),
        decreases entries@.len() - k,
    {
        proof {
            assert(es[k as int] == pair_view(entries@[k as int]));
        }
        let b = match parse_block(entries[k].1.as_str()) {
            Some(b) => b,
            None => {
                proof {
                    assert(parsed_block(es[k as int].1) is None);
                }
                return Err(DecodeError::UnparsableBlock);
            },
        };
        let text = block_to_string(&b);
        let is_unnamed = entries[k].0 == text;
        let name: Option<&str> = if is_unnamed {
            None
        } else {
            Some(entries[k].0.as_str())
        };
        proof {
            assert(crate::subspace::name_arg_view(name) == derived_rec(es[k as int].0, b).1);
            assert(alloc_key(crate::subspace::name_arg_view(name), b) == es[k as int].0);
            lemma_can_claim_tidy(sp.root, b);
            lemma_recs_disjoint(sp.root);
        }
        let ghost sp0 = sp;
        match sp.claim(&b, name) {
            Ok(()) => {
                proof {
                    let rec = derived_rec(es[k as int].0, b);
                    let j = choose|j: int|
                        0 <= j <= sp0.recs().len() && sp.recs() == sp0.recs().insert(j, rec);
                    assert forall|t: int| 0 <= t < k + 1 implies rec_listed(
                        sp.recs(),
                        #[trigger] es[t],
                    ) by {
                        if t < k {
                            let j0 = choose|j0: int|
                                0 <= j0 < sp0.recs().len() && #[trigger] sp0.recs()[j0]
                                    == derived_rec(es[t].0, entry_block(es[t]));
                            if j0 < j {
                                assert(sp.recs()[j0] == sp0.recs()[j0]);
                            } else {
                                assert(sp.recs()[j0 + 1] == sp0.recs()[j0]);
                            }
                        } else {
                            assert(sp.recs()[j] == rec);
                        }
                    }
                    assert forall|j2: int| 0 <= j2 < sp.recs().len() implies rec_from_first(
                        #[trigger] sp.recs()[j2],
                        es,
                        k + 1,
                    ) by {
                        if j2 == j {
                            assert(sp.recs()[j2] == rec);
                        } else {
                            let j0 = if j2 < j {
                                j2
                            } else {
                                j2 - 1
                            };
                            assert(sp.recs()[j2] == sp0.recs()[j0]);
                            assert(rec_from_first(sp0.recs()[j0], es, k as int));
                        }
                    }
                    assert forall|t1: int, t2: int| 0 <= t1 < t2 < k + 1 implies (
                    #[trigger] es[t1]).0 != (#[trigger] es[t2]).0 by {
                        if t2 == k {
                            if es[t1].0 == es[k as int].0 {
                                let j0 = choose|j0: int|
                                    0 <= j0 < sp0.recs().len() && #[trigger] sp0.recs()[j0]
                                        == derived_rec(es[t1].0, entry_block(es[t1]));
                                assert(key_of(sp0.recs()[j0]) == es[t1].0);
                                assert(rec_has_entry(sp0.index_pairs(), sp0.recs()[j0]));
                                let i0 = choose|i0: int|
                                    0 <= i0 < sp0.index_pairs().len() && crate::memory::entry_matches(
                                        #[trigger] sp0.index_pairs()[i0],
                                        sp0.recs()[j0],
                                    );
                                assert(sp0.index_pairs()[i0].0 == es[k as int].0);
                                assert(sp0.has_key(es[k as int].0));
                                assert(false);
                            }
                        }
                    }
                    assert forall|t1: int, t2: int| 0 <= t1 < t2 < k + 1 implies !entry_block(
                        #[trigger] es[t1],
                    ).overlaps(entry_block(#[trigger] es[t2])) by {
                        if t2 == k {
                            let j0 = choose|j0: int|
                                0 <= j0 < sp0.recs().len() && #[trigger] sp0.recs()[j0]
                                    == derived_rec(es[t1].0, entry_block(es[t1]));
                            assert(!sp0.recs()[j0].0.overlaps(b));
                        }
                    }
                }
            },
            Err(AllocateError::DuplicateName) => {
                proof {
                    // in every refusal shape an earlier entry carries the
                    // same key
                    if sp0.has_key(es[k as int].0) {
                        let kk = choose|i: int|
                            0 <= i < sp0.index_pairs().len() && (#[trigger] sp0.index_pairs()[i]).0
                                == es[k as int].0;
                        assert(entry_has_rec(sp0.index_pairs()[kk], sp0.recs()));
                        let j0 = choose|j0: int|
                            0 <= j0 < sp0.recs().len() && crate::memory::entry_matches(
                                sp0.index_pairs()[kk],
                                #[trigger] sp0.recs()[j0],
                            );
                        assert(key_of(sp0.recs()[j0]) == es[k as int].0);
                        assert(rec_from_first(sp0.recs()[j0], es, k as int));
                        let t = choose|t: int|
                            0 <= t < k && sp0.recs()[j0] == derived_rec(
                                (#[trigger] es[t]).0,
                                entry_block(es[t]),
                            );
                        assert(key_of(sp0.recs()[j0]) == es[t].0);
                        assert(es[t].0 == es[k as int].0 && t != k);
                    } else {
                        // an unnamed claim refused by an explicit name
                        assert(sp0.has_named_key(block_text(b)));
                        assert(block_text(b) == es[k as int].0);
                        let j0 = choose|j0: int|
                            0 <= j0 < sp0.recs().len() && (#[trigger] sp0.recs()[j0]).1 == Some(
                                block_text(b),
                            );
                        assert(rec_from_first(sp0.recs()[j0], es, k as int));
                        let t = choose|t: int|
                            0 <= t < k && sp0.recs()[j0] == derived_rec(
                                (#[trigger] es[t]).0,
                                entry_block(es[t]),
                            );
                        assert(sp0.recs()[j0].1 == Some(es[t].0));
                        assert(es[t].0 == es[k as int].0 && t != k);
                    }
                }
                return Err(DecodeError::DuplicateName);
            },
            Err(AllocateError::NoSpaceAvailable) => {
                proof {
                    if base.contains_spec(b) {
                        let j0 = choose|j0: int|
                            0 <= j0 < sp0.recs().len() && (#[trigger] sp0.recs()[j0]).0.overlaps(
                                b,
                            );
                        assert(rec_from_first(sp0.recs()[j0], es, k as int));
                        let t = choose|t: int|
                            0 <= t < k && sp0.recs()[j0] == derived_rec(
                                (#[trigger] es[t]).0,
                                entry_block(es[t]),
                            );
                        assert(entry_block(es[t]).overlaps(entry_block(es[k as int])));
                        assert(!rebuildable(base, es));
                    } else {
                        assert(!rebuildable(base, es));
                    }
                }
                return Err(DecodeError::NoSpaceAvailable);
            },
        }
        k = k + 1;
    }
    proof {
        assert forall|t: int, kx: int|
            0 <= t < es.len() && 0 <= kx < es.len() && t != kx implies (#[trigger] es[t]).0 != (
        #[trigger] es[kx]).0 by {
            if kx < t {
                assert(es[kx].0 != es[t].0);
            }
        }
        assert forall|t: int, kx: int|
            0 <= t < es.len() && 0 <= kx < es.len() && t != kx implies !entry_block(
            #[trigger] es[t]).overlaps(entry_block(#[trigger] es[kx])) by {
            if kx < t {
                assert(!entry_block(es[kx]).overlaps(entry_block(es[t])));
            }
        }
        assert forall|kx: int| 0 <= kx < entries@.len() implies rec_listed(
            sp.recs(),
            pair_view(#[trigger] entries@[kx]),
        ) by {
            assert(es[kx] == pair_view(entries@[kx]));
            assert(rec_listed(sp.recs(), es[kx]));
        }
    }
    Ok(sp)
}

/// Law: a space's serialized entries are always rebuildable over its base
/// block, and the records they denote are exactly the space's own records
/// — the round trip reproduces the same allocated blocks under the same
/// names, whatever order the entries are claimed in.  The one excluded
/// input: an allocation explicitly named with its own block's canonical
/// text, which deserialization cannot tell from an unnamed one.
pub proof fn lemma_round_trip(s: MemorySpace, es: Seq<(Seq<char>, Seq<char>)>)
    requires
        s.inv(),
        es.len() == s.recs().len(),
        forall|k: int| 0 <= k < es.len() ==> entry_lists_rec(#[trigger] es[k], s.recs()),
        forall|j: int| 0 <= j < s.recs().len() ==> rec_listed_entry(#[trigger] s.recs()[j], es),
        forall|t: int, k: int|
            0 <= t < es.len() && 0 <= k < es.len() && t != k ==> #[trigger] es[t] != #[trigger] es[k],
        forall|j: int|
            0 <= j < s.recs().len() ==> ((#[trigger] s.recs()[j]).1 matches Some(n) ==> n
                != block_text(s.recs()[j].0)),
    ensures
        rebuildable(s.base(), es),
        forall|k: int| 0 <= k < es.len() ==> rec_listed(s.recs(), #[trigger] es[k]),
        forall|j: int|
            0 <= j < s.recs().len() ==> rec_from_first(
                #[trigger] s.recs()[j],
                es,
                es.len() as int,
            ),
{
    lemma_recs_disjoint(s.root);
    lemma_recs_ordered(s.root);
    lemma_match_keys_unique(s.index_pairs(), s.recs());
    let rs = s.recs();
    assert forall|k: int| 0 <= k < es.len() implies parsed_block((#[trigger] es[k]).1) is Some by {
        let j = choose|j: int|
            0 <= j < rs.len() && es[k] == (key_of(#[trigger] rs[j]), block_text(rs[j].0))
                && parsed_block(es[k].1) == Some(rs[j].0);
    }
    assert forall|k: int| 0 <= k < es.len() implies s.base().contains_spec(
        entry_block(#[trigger] es[k]),
    ) by {
        let j = choose|j: int|
            0 <= j < rs.len() && es[k] == (key_of(#[trigger] rs[j]), block_text(rs[j].0))
                && parsed_block(es[k].1) == Some(rs[j].0);
        assert(entry_block(es[k]) == rs[j].0);
    }
    assert forall|t: int, k: int|
        0 <= t < es.len() && 0 <= k < es.len() && t != k implies (#[trigger] es[t]).0 != (
    #[trigger] es[k]).0 by {
        let jt = choose|j: int|
            0 <= j < rs.len() && es[t] == (key_of(#[trigger] rs[j]), block_text(rs[j].0))
                && parsed_block(es[t].1) == Some(rs[j].0);
        let jk = choose|j: int|
            0 <= j < rs.len() && es[k] == (key_of(#[trigger] rs[j]), block_text(rs[j].0))
                && parsed_block(es[k].1) == Some(rs[j].0);
        if es[t].0 == es[k].0 {
            assert(key_of(rs[jt]) == key_of(rs[jk]));
            assert(jt == jk);
            assert(es[t] == es[k]);
        }
    }
    assert forall|t: int, k: int|
        0 <= t < es.len() && 0 <= k < es.len() && t != k implies !entry_block(
        #[trigger] es[t]).overlaps(entry_block(#[trigger] es[k])) by {
        let jt = choose|j: int|
            0 <= j < rs.len() && es[t] == (key_of(#[trigger] rs[j]), block_text(rs[j].0))
                && parsed_block(es[t].1) == Some(rs[j].0);
        let jk = choose|j: int|
            0 <= j < rs.len() && es[k] == (key_of(#[trigger] rs[j]), block_text(rs[j].0))
                && parsed_block(es[k].1) == Some(rs[j].0);
        assert(jt != jk) by {
            if jt == jk {
                assert(es[t] == es[k]);
            }
        }
        assert(entry_block(es[t]) == rs[jt].0 && entry_block(es[k]) == rs[jk].0);
    }
    assert forall|k: int| 0 <= k < es.len() implies rec_listed(rs, #[trigger] es[k]) by {
        let j = choose|j: int|
            0 <= j < rs.len() && es[k] == (key_of(#[trigger] rs[j]), block_text(rs[j].0))
                && parsed_block(es[k].1) == Some(rs[j].0);
        assert(entry_block(es[k]) == rs[j].0);
        assert(derived_rec(es[k].0, entry_block(es[k])) == rs[j]) by {
            match rs[j].1 {
                Some(n) => {
                    assert(es[k].0 == n && n != block_text(rs[j].0));
                },
                None => {
                    assert(es[k].0 == block_text(rs[j].0));
                },
            }
        }
    }
    assert forall|j: int| 0 <= j < rs.len() implies rec_from_first(
        #[trigger] rs[j],
        es,
        es.len() as int,
    ) by {
        let k = choose|k: int|
            0 <= k < es.len() && #[trigger] es[k] == (key_of(rs[j]), block_text(rs[j].0))
                && parsed_block(es[k].1) == Some(rs[j].0);
        assert(entry_block(es[k]) == rs[j].0);
        assert(derived_rec(es[k].0, entry_block(es[k])) == rs[j]) by {
            match rs[j].1 {
                Some(n) => {
                    assert(es[k].0 == n && n != block_text(rs[j].0));
                },
                None => {
                    assert(es[k].0 == block_text(rs[j].0));
                },
            }
        }
    }
}

} // verus!
