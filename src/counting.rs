use vstd::prelude::*;
use crate::tile::{Tile, TileState};

verus! {

/// Number of tiles of `s` that satisfy `p`.
pub open spec fn count(s: Seq<Tile>, p: spec_fn(Tile) -> bool) -> nat
    decreases s.len(),
{
    if s.len() == 0 {
        0
    } else {
        count(s.drop_last(), p) + if p(s.last()) { 1nat } else { 0nat }
    }
}

pub open spec fn swept() -> spec_fn(Tile) -> bool {
    |t: Tile| t.swept
}

pub open spec fn flagged() -> spec_fn(Tile) -> bool {
    |t: Tile| t.is_flagged()
}

pub open spec fn mined() -> spec_fn(Tile) -> bool {
    |t: Tile| t.state == TileState::Mine
}

pub open spec fn marked_safe() -> spec_fn(Tile) -> bool {
    |t: Tile| t.safe
}

/// A tile that may still receive a mine.
pub open spec fn free() -> spec_fn(Tile) -> bool {
    |t: Tile| !t.safe && t.state == TileState::Empty
}

pub proof fn lemma_count_bound(s: Seq<Tile>, p: spec_fn(Tile) -> bool)
    ensures
        count(s, p) <= s.len(),
    decreases s.len(),
{
    if s.len() > 0 {
        lemma_count_bound(s.drop_last(), p);
    }
}

/// Replacing one tile changes the count by what the two tiles contribute.
pub proof fn lemma_count_update(s: Seq<Tile>, p: spec_fn(Tile) -> bool, i: int, t: Tile)
    requires
        0 <= i < s.len(),
    ensures
        count(s.update(i, t), p) + (if p(s[i]) { 1int } else { 0int })
            == count(s, p) + (if p(t) { 1int } else { 0int }),
    decreases s.len(),
{
    let u = s.update(i, t);
    if i == s.len() - 1 {
        assert(u.drop_last() =~= s.drop_last());
    } else {
        assert(u.drop_last() =~= s.drop_last().update(i, t));
        lemma_count_update(s.drop_last(), p, i, t);
    }
}

/// Counting over a prefix one tile longer.
pub proof fn lemma_count_take(s: Seq<Tile>, p: spec_fn(Tile) -> bool, k: int)
    requires
        0 <= k < s.len(),
    ensures
        count(s.take(k + 1), p) == count(s.take(k), p) + if p(s[k]) { 1nat } else { 0nat },
{
    assert(s.take(k + 1).drop_last() =~= s.take(k));
}

/// Two sequences whose tiles agree on `p`, position by position, count alike.
pub proof fn lemma_count_agree(s: Seq<Tile>, t: Seq<Tile>, p: spec_fn(Tile) -> bool)
    requires
        s.len() == t.len(),
        forall|k: int| 0 <= k < s.len() ==> (p(s[k]) <==> p(t[k])),
    ensures
        count(s, p) == count(t, p),
    decreases s.len(),
{
    if s.len() > 0 {
        lemma_count_agree(s.drop_last(), t.drop_last(), p);
    }
}

/// A predicate and its negation split the sequence.
pub proof fn lemma_count_complement(s: Seq<Tile>, p: spec_fn(Tile) -> bool, q: spec_fn(Tile) -> bool)
    requires
        forall|i: int| 0 <= i < s.len() ==> (p(s[i]) <==> !q(s[i])),
    ensures
        count(s, p) + count(s, q) == s.len(),
    decreases s.len(),
{
    if s.len() > 0 {
        lemma_count_complement(s.drop_last(), p, q);
    }
}

/// A predicate that no tile satisfies counts zero.
pub proof fn lemma_count_none(s: Seq<Tile>, p: spec_fn(Tile) -> bool)
    requires
        forall|i: int| 0 <= i < s.len() ==> !p(s[i]),
    ensures
        count(s, p) == 0,
    decreases s.len(),
{
    if s.len() > 0 {
        lemma_count_none(s.drop_last(), p);
    }
}

/// If `p` implies `q` tile by tile, `p` counts no more than `q`.
pub proof fn lemma_count_mono(s: Seq<Tile>, p: spec_fn(Tile) -> bool, q: spec_fn(Tile) -> bool)
    requires
        forall|i: int| 0 <= i < s.len() ==> (p(s[i]) ==> q(s[i])),
    ensures
        count(s, p) <= count(s, q),
    decreases s.len(),
{
    if s.len() > 0 {
        lemma_count_mono(s.drop_last(), p, q);
    }
}

} // verus!
