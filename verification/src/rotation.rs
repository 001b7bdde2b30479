//! The rotation state itself: building a pool from a directory listing,
//! loading or rebuilding it from the persisted bytes, and selecting the
//! next avatar.

use rand::seq::SliceRandom;
use vstd::prelude::*;

use crate::codec::{decode_state, encode_state, sp_state, spec_encode, views_of};

verus! {

/// A path qualifies when its extension is exactly `jpg` or `png`
/// (case-sensitive): it ends in `.jpg` or `.png` and the suffix does not
/// itself begin the final path component.
pub open spec fn qualifies(p: Seq<u8>) -> bool {
    p.len() >= 5 && p[p.len() - 5] != 47 && p[p.len() - 4] == 46 && ((p[p.len() - 3] == 106
        && p[p.len() - 2] == 112 && p[p.len() - 1] == 103) || (p[p.len() - 3] == 112 && p[p.len()
        - 2] == 110 && p[p.len() - 1] == 103))
}

/// The qualifying paths of a listing, in listing order.
pub open spec fn qualifying(l: Seq<Seq<u8>>) -> Seq<Seq<u8>> {
    l.filter(|p: Seq<u8>| qualifies(p))
}

/// Why a run cannot go on. Every error is fatal to the caller.
#[derive(Debug, Clone, Copy, PartialEq, Eq, Structural)]
pub enum RotationError {
    /// The persisted state file exists but its bytes are not a state.
    MalformedState,
    /// The directory holds fewer than two qualifying files, so there is
    /// nothing to rotate through.
    TooFewCandidates,
}

/// The persisted rotation state: the pool of paths not yet used in this
/// cycle (consumed from the end) and the most recently applied path.
pub struct RotationState {
    pub pool: Vec<Vec<u8>>,
    pub current: Vec<u8>,
}

impl RotationState {
    /// The pool as a sequence of byte strings.
    pub open spec fn pool_model(self) -> Seq<Seq<u8>> {
        views_of(self.pool@)
    }
}

/// A freshly built pool: a permutation of the qualifying paths, with the
/// path that would be popped first different from the previous selection.
pub open spec fn fresh_pool(pool0: Seq<Seq<u8>>, listing: Seq<Seq<u8>>, prev: Seq<u8>) -> bool {
    &&& pool0.to_multiset() == qualifying(listing).to_multiset()
    &&& pool0.len() == qualifying(listing).len()
    &&& pool0.no_duplicates()
    &&& pool0.len() >= 2
    &&& pool0.last() != prev
}

/// A state as `build_pool` returns it.
pub open spec fn built_ok(st: RotationState, listing: Seq<Seq<u8>>, prev: Seq<u8>) -> bool {
    fresh_pool(st.pool_model(), listing, prev) && st.current@ == prev
}

fn has_image_ext(p: &Vec<u8>) -> (r: bool)
    ensures
        r == qualifies(p@),
{
    let n = p.len();
    if n < 5 {
        return false;
    }
    p[n - 5] != 47 && p[n - 4] == 46 && ((p[n - 3] == 106 && p[n - 2] == 112 && p[n - 1] == 103)
        || (p[n - 3] == 112 && p[n - 2] == 110 && p[n - 1] == 103))
}

fn copy_bytes(src: &Vec<u8>) -> (r: Vec<u8>)
    ensures
        r@ == src@,
{
    let mut out: Vec<u8> = Vec::new();
    let mut j: usize = 0;
    while j < src.len()
        invariant
            j <= src@.len(),
            out@ == src@.take(j as int),
        decreases src@.len() - j,
    {
        out.push(src[j]);
        proof {
            assert(src@.take(j as int + 1) =~= src@.take(j as int).push(src@[j as int]));
        }
        j += 1;
    }
    proof {
        assert(src@.take(src@.len() as int) =~= src@);
    }
    out
}

fn bytes_eq(a: &Vec<u8>, b: &Vec<u8>) -> (r: bool)
    ensures
        r == (a@ == b@),
{
    if a.len() != b.len() {
        return false;
    }
    let mut k: usize = 0;
    while k < a.len()
        invariant
            a@.len() == b@.len(),
            k <= a@.len(),
            forall|m: int| 0 <= m < k ==> a@[m] == b@[m],
        decreases a@.len() - k,
    {
        if a[k] != b[k] {
            return false;
        }
        k += 1;
    }
    proof {
        assert(a@ =~= b@);
    }
    true
}

/// Relies on rand's `SliceRandom::shuffle`: it permutes the slice in place
/// (Fisher-Yates swaps), so the same paths are there afterwards, reordered.
#[verifier::external_body]
fn shuffle_paths(v: &mut Vec<Vec<u8>>)
    ensures
        final(v)@.len() == old(v)@.len(),
        views_of(final(v)@).to_multiset() == views_of(old(v)@).to_multiset(),
{
    v.shuffle(&mut rand::rng());
}

/// The qualifying entries of a listing, in listing order.
fn qualifying_files(entries: &Vec<Vec<u8>>) -> (r: Vec<Vec<u8>>)
    ensures
        views_of(r@) == qualifying(views_of(entries@)),
{
    let ghost listing = views_of(entries@);
    let mut files: Vec<Vec<u8>> = Vec::new();
    proof {
        reveal(Seq::filter);
        assert(views_of(files@) =~= qualifying(listing.take(0)));
    }
    let mut i: usize = 0;
    while i < entries.len()
        invariant
            i <= entries@.len(),
            listing == views_of(entries@),
            views_of(files@) == qualifying(listing.take(i as int)),
        decreases entries@.len() - i,
    {
        let keep = has_image_ext(&entries[i]);
        let ghost pre = files@;
        if keep {
            let e = copy_bytes(&entries[i]);
            files.push(e);
        }
        proof {
            reveal(Seq::filter);
            let prefix = listing.take(i as int);
            let longer = listing.take(i as int + 1);
            assert(longer.drop_last() =~= prefix);
            assert(longer.last() == listing[i as int]);
            if keep {
                assert(views_of(files@) =~= views_of(pre).push(entries@[i as int]@));
                assert(qualifying(longer) == qualifying(prefix).push(longer.last()));
            } else {
                assert(views_of(files@) =~= views_of(pre));
                assert(qualifying(longer) == qualifying(prefix));
            }
        }
        i += 1;
    }
    proof {
        assert(listing.take(listing.len() as int) =~= listing);
    }
    files
}

proof fn lemma_filter_no_dup(l: Seq<Seq<u8>>)
    requires
        l.no_duplicates(),
    ensures
        qualifying(l).no_duplicates(),
    decreases l.len(),
{
    reveal(Seq::filter);
    if l.len() == 0 {
    } else {
        let sub = l.drop_last();
        assert(sub.no_duplicates());
        lemma_filter_no_dup(sub);
        if qualifies(l.last()) {
            assert(qualifying(l) == qualifying(sub).push(l.last()));
            assert forall|m: int| 0 <= m < qualifying(sub).len() implies qualifying(sub)[m]
                != l.last() by {
                qualifying_subset(sub, m);
                let k = choose|k: int| 0 <= k < sub.len() && sub[k] == qualifying(sub)[m];
                assert(l[k] == sub[k]);
                assert(l[k] != l[l.len() - 1]);
            }
            assert(qualifying(l).no_duplicates());
        } else {
            assert(qualifying(l) == qualifying(sub));
        }
    }
}

/// Every filtered element occurs in the source.
proof fn qualifying_subset(l: Seq<Seq<u8>>, m: int)
    requires
        0 <= m < qualifying(l).len(),
    ensures
        l.contains(qualifying(l)[m]),
    decreases l.len(),
{
    reveal(Seq::filter);
    if l.len() == 0 {
    } else {
        let sub = l.drop_last();
        if qualifies(l.last()) {
            assert(qualifying(l) == qualifying(sub).push(l.last()));
            if m < qualifying(sub).len() {
                qualifying_subset(sub, m);
                let k = choose|k: int| 0 <= k < sub.len() && sub[k] == qualifying(sub)[m];
                assert(l[k] == qualifying(l)[m]);
            } else {
                assert(l[l.len() - 1] == qualifying(l)[m]);
            }
        } else {
            assert(qualifying(l) == qualifying(sub));
            qualifying_subset(sub, m);
            let k = choose|k: int| 0 <= k < sub.len() && sub[k] == qualifying(sub)[m];
            assert(l[k] == qualifying(l)[m]);
        }
    }
}

proof fn lemma_multiset_eq_no_dup(a: Seq<Seq<u8>>, b: Seq<Seq<u8>>)
    requires
        a.to_multiset() == b.to_multiset(),
        a.no_duplicates(),
    ensures
        b.no_duplicates(),
{
    broadcast use vstd::seq_lib::group_to_multiset_ensures;

    a.lemma_multiset_has_no_duplicates();
    assert forall|x: Seq<u8>| b.to_multiset().contains(x) implies b.to_multiset().count(x)
        == 1 by {
        assert(a.to_multiset().contains(x));
    }
    b.lemma_multiset_has_no_duplicates_conv();
}

/// Build a fresh pool from the directory listing: keep the qualifying
/// paths, insist on at least two of them, shuffle, and reshuffle while the
/// path that would be popped next is still the previous selection (after a
/// run of failed shuffles, that path is moved away deterministically).
pub fn build_pool(entries: &Vec<Vec<u8>>, current: Vec<u8>) -> (r: Result<
    RotationState,
    RotationError,
>)
    requires
        views_of(entries@).no_duplicates(),
    ensures
        match r {
            Ok(st) => built_ok(st, views_of(entries@), current@),
            Err(e) => e == RotationError::TooFewCandidates && qualifying(views_of(entries@)).len()
                < 2,
        },
{
    let ghost listing = views_of(entries@);
    let mut files = qualifying_files(entries);
    if files.len() < 2 {
        return Err(RotationError::TooFewCandidates);
    }
    proof {
        lemma_filter_no_dup(listing);
        assert(views_of(files@).to_multiset() == qualifying(listing).to_multiset());
    }
    shuffle_paths(&mut files);
    proof {
        lemma_multiset_eq_no_dup(qualifying(listing), views_of(files@));
    }
    let mut last_matches = bytes_eq(&files[files.len() - 1], &current);
    let mut tries: usize = 0;
    while last_matches && tries < 32
        invariant
            tries <= 32,
            listing == views_of(entries@),
            qualifying(listing).no_duplicates(),
            files@.len() == qualifying(listing).len(),
            files@.len() >= 2,
            views_of(files@).to_multiset() == qualifying(listing).to_multiset(),
            views_of(files@).no_duplicates(),
            last_matches == (views_of(files@).last() == current@),
        decreases 32 - tries,
    {
        shuffle_paths(&mut files);
        proof {
            lemma_multiset_eq_no_dup(qualifying(listing), views_of(files@));
        }
        last_matches = bytes_eq(&files[files.len() - 1], &current);
        tries += 1;
    }
    if last_matches {
        // The shuffles kept ending on the previous selection: move that
        // element out of the way deterministically, to the front.
        let ghost pre = views_of(files@);
        let moved = files.pop().unwrap();
        let ghost dropped = views_of(files@);
        files.insert(0, moved);
        proof {
            assert(dropped =~= pre.drop_last());
            assert(pre =~= dropped.push(moved@));
            assert(views_of(files@) =~= dropped.insert(0, moved@));
            broadcast use vstd::seq_lib::group_to_multiset_ensures;

            vstd::seq_lib::to_multiset_insert::<Seq<u8>>(dropped, 0, moved@);
            assert(views_of(files@).to_multiset() == pre.to_multiset());
            lemma_multiset_eq_no_dup(qualifying(listing), views_of(files@));
            assert(views_of(files@).last() == pre[pre.len() - 2]);
            assert(pre[pre.len() - 2] != pre[pre.len() - 1]);
        }
    }
    Ok(RotationState { pool: files, current })
}

/// Pop the next avatar off the pool and make it the current selection.
/// The returned path is the pool's former last element; it is no longer in
/// the pool afterwards (the pool's paths are distinct whenever the state
/// was built by this library).
pub fn select_next(st: &mut RotationState) -> (r: Vec<u8>)
    requires
        old(st).pool@.len() > 0,
    ensures
        final(st).pool_model() == old(st).pool_model().drop_last(),
        r@ == old(st).pool_model().last(),
        final(st).current@ == r@,
        old(st).pool_model().no_duplicates() ==> !final(st).pool_model().contains(r@),
{
    let ghost pre = old(st).pool_model();
    let p = st.pool.pop().unwrap();
    let c = copy_bytes(&p);
    st.current = c;
    proof {
        assert(st.pool_model() =~= pre.drop_last());
        if pre.no_duplicates() {
            if st.pool_model().contains(p@) {
                let k = choose|k: int|
                    0 <= k < pre.drop_last().len() && pre.drop_last()[k] == p@;
                assert(pre[k] == pre[pre.len() - 1]);
                assert(false);
            }
        }
    }
    p
}

/// What `load_or_build` promises, given the persisted bytes (or their
/// absence) and the directory listing.
pub open spec fn loaded_ok(
    r: Result<RotationState, RotationError>,
    bytes: Option<Seq<u8>>,
    listing: Seq<Seq<u8>>,
) -> bool {
    match bytes {
        None => match r {
            Ok(st) => built_ok(st, listing, Seq::empty()),
            Err(e) => e == RotationError::TooFewCandidates && qualifying(listing).len() < 2,
        },
        Some(b) => match sp_state(b) {
            None => r == Err::<RotationState, RotationError>(RotationError::MalformedState),
            Some(ps) => if ps.0.len() > 0 {
                match r {
                    Ok(st) => st.pool_model() == ps.0 && st.current@ == ps.1,
                    Err(_) => false,
                }
            } else {
                match r {
                    Ok(st) => built_ok(st, listing, ps.1),
                    Err(e) => e == RotationError::TooFewCandidates && qualifying(listing).len()
                        < 2,
                }
            },
        },
    }
}

/// Load the persisted state, or build a fresh pool where none is persisted
/// or the persisted pool is exhausted. A persisted non-empty pool is
/// returned exactly as it was read; malformed bytes are a fatal error.
pub fn load_or_build(bytes: Option<&Vec<u8>>, entries: &Vec<Vec<u8>>) -> (r: Result<
    RotationState,
    RotationError,
>)
    requires
        views_of(entries@).no_duplicates(),
    ensures
        loaded_ok(
            r,
            match bytes {
                Some(b) => Some(b@),
                None => None,
            },
            views_of(entries@),
        ),
{
    match bytes {
        None => {
            let empty: Vec<u8> = Vec::new();
            build_pool(entries, empty)
        },
        Some(b) => match decode_state(b) {
            None => Err(RotationError::MalformedState),
            Some((pool, cur)) => {
                if pool.len() > 0 {
                    Ok(RotationState { pool, current: cur })
                } else {
                    build_pool(entries, cur)
                }
            },
        },
    }
}

/// What `advance` promises for a successful run.
pub open spec fn advanced_ok(
    st: RotationState,
    chosen: Seq<u8>,
    bytes: Option<Seq<u8>>,
    listing: Seq<Seq<u8>>,
) -> bool {
    match bytes {
        None => exists|pool0: Seq<Seq<u8>>|
            #![trigger pool0.drop_last()]
            fresh_pool(pool0, listing, Seq::empty()) && st.pool_model() == pool0.drop_last()
                && chosen == pool0.last() && !st.pool_model().contains(chosen),
        Some(b) => match sp_state(b) {
            None => false,
            Some(ps) => if ps.0.len() > 0 {
                st.pool_model() == ps.0.drop_last() && chosen == ps.0.last() && (
                ps.0.no_duplicates() ==> !st.pool_model().contains(chosen))
            } else {
                exists|pool0: Seq<Seq<u8>>|
                    #![trigger pool0.drop_last()]
                    fresh_pool(pool0, listing, ps.1) && st.pool_model() == pool0.drop_last()
                        && chosen == pool0.last() && chosen != ps.1 && !st.pool_model().contains(
                        chosen,
                    )
            },
        },
    }
}

/// One whole run over plain values: load or rebuild the pool from the
/// persisted bytes and the directory listing, pop the next avatar, and
/// return the new state together with the chosen path.
pub fn advance(bytes: Option<&Vec<u8>>, entries: &Vec<Vec<u8>>) -> (r: Result<
    (RotationState, Vec<u8>),
    RotationError,
>)
    requires
        views_of(entries@).no_duplicates(),
    ensures
        ({
            let b = match bytes {
                Some(b) => Some(b@),
                None => None,
            };
            let listing = views_of(entries@);
            match r {
                Ok(p) => advanced_ok(p.0, p.1@, b, listing) && p.0.current@ == p.1@,
                Err(e) => match b {
                    None => e == RotationError::TooFewCandidates && qualifying(listing).len()
                        < 2,
                    Some(bb) => match sp_state(bb) {
                        None => e == RotationError::MalformedState,
                        Some(ps) => ps.0.len() == 0 && e == RotationError::TooFewCandidates
                            && qualifying(listing).len() < 2,
                    },
                },
            }
        }),
{
    let loaded = load_or_build(bytes, entries);
    match loaded {
        Err(e) => Err(e),
        Ok(mut st) => {
            let ghost pool0 = st.pool_model();
            let chosen = select_next(&mut st);
            Ok((st, chosen))
        },
    }
}

/// The canonical state-file bytes for a state.
pub fn state_to_bytes(st: &RotationState) -> (r: Vec<u8>)
    ensures
        r@ == spec_encode(st.pool_model(), st.current@),
{
    encode_state(&st.pool, &st.current)
}

/// Read a state back from state-file bytes; `MalformedState` exactly where
/// the bytes encode no state.
pub fn state_from_bytes(bytes: &Vec<u8>) -> (r: Result<RotationState, RotationError>)
    ensures
        match r {
            Ok(st) => sp_state(bytes@) == Some((st.pool_model(), st.current@)),
            Err(e) => e == RotationError::MalformedState && sp_state(bytes@) is None,
        },
{
    match decode_state(bytes) {
        None => Err(RotationError::MalformedState),
        Some((pool, cur)) => Ok(RotationState { pool, current: cur }),
    }
}

} // verus!