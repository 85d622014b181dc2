//! Exact-duplicate detection: files are bucketed by size, then by a hash of their
//! first 64 KB, then by a hash of their whole content (XXH3-128). Only keys shared
//! by two or more files survive each stage.

use vstd::prelude::*;
use std::collections::HashMap;
use crate::scanner::FileEntry;
use crate::perceptual::same_indices;
use xxhash_rust::xxh3::Xxh3;

verus! {

/// Content hash of a file (XXH3-128 of its bytes).
#[derive(Debug, Clone, Copy, PartialEq, Eq, Structural, Hash)]
pub struct FileHash(pub u128);

#[verifier::external_type_specification]
#[verifier::external_body]
pub struct ExXxh3(Xxh3);

/// The bytes fed so far to a streaming XXH3 hasher, in order.
pub uninterp spec fn xxh3_fed(state: Xxh3) -> Seq<u8>;

/// What `Xxh3::digest128` gives: the 128-bit XXH3 hash (seed 0, default secret) of the
/// bytes fed.
pub uninterp spec fn xxh3_digest_of(data: Seq<u8>) -> u128;

/// Calls `Xxh3::new`. Trusted: a new hasher has been fed nothing.
#[verifier::external_body]
fn xxh3_new() -> (state: Xxh3)
    ensures
        xxh3_fed(state) == Seq::<u8>::empty(),
{
    Xxh3::new()
}

/// Calls `Xxh3::update`. Trusted: the chunk is appended to the bytes fed.
#[verifier::external_body]
fn xxh3_update(state: &mut Xxh3, chunk: &[u8])
    ensures
        xxh3_fed(*final(state)) == xxh3_fed(*old(state)) + chunk@,
{
    state.update(chunk)
}

/// Calls `Xxh3::digest128`. Trusted: the result depends only on the bytes fed so far
/// (it is named `xxh3_digest_of` of them); digesting does not change the state.
#[verifier::external_body]
fn xxh3_digest(state: &Xxh3) -> (d: u128)
    ensures
        d == xxh3_digest_of(xxh3_fed(*state)),
{
    state.digest128()
}

/// Streaming content hasher: feed a file's bytes in chunks, then take the hash.
pub struct ContentHasher {
    state: Xxh3,
}

impl View for ContentHasher {
    type V = Seq<u8>;

    /// The bytes fed so far.
    closed spec fn view(&self) -> Seq<u8> {
        xxh3_fed(self.state)
    }
}

impl ContentHasher {
    pub fn new() -> (h: ContentHasher)
        ensures
            h@ == Seq::<u8>::empty(),
    {
        ContentHasher { state: xxh3_new() }
    }

    /// Feeds the next chunk of content.
    pub fn update(&mut self, chunk: &[u8])
        ensures
            final(self)@ == old(self)@ + chunk@,
    {
        xxh3_update(&mut self.state, chunk);
    }

    /// The hash of everything fed so far.
    pub fn finish(&self) -> (h: FileHash)
        ensures
            h.0 == xxh3_digest_of(self@),
    {
        FileHash(xxh3_digest(&self.state))
    }
}

/// Bytes read for the cheap first-pass hash.
pub const PARTIAL_SIZE: usize = 65536;

/// Read buffer for the full hash.
pub const CHUNK_SIZE: usize = 262144;

/// Positions in `keys` that hold `Some(h)`, in increasing order.
pub open spec fn positions_of(keys: Seq<Option<u128>>, h: u128) -> Seq<int>
    decreases keys.len(),
{
    if keys.len() == 0 {
        seq![]
    } else {
        let p = positions_of(keys.drop_last(), h);
        if keys.last() == Some(h) {
            p.push(keys.len() - 1)
        } else {
            p
        }
    }
}

/// Position `k` holds a key that at least one other position holds too.
pub open spec fn shared_at(keys: Seq<Option<u128>>, k: int) -> bool {
    match keys[k] {
        Some(h) => positions_of(keys, h).len() >= 2,
        None => false,
    }
}

/// The positions below `m` whose key is shared, in increasing order.
pub open spec fn shared_upto(keys: Seq<Option<u128>>, m: int) -> Seq<int>
    decreases m,
{
    if m <= 0 {
        seq![]
    } else {
        let p = shared_upto(keys, m - 1);
        if shared_at(keys, m - 1) {
            p.push(m - 1)
        } else {
            p
        }
    }
}

proof fn lemma_positions_step(keys: Seq<Option<u128>>, i: int, h: u128)
    requires
        0 <= i < keys.len(),
    ensures
        positions_of(keys.take(i + 1), h) == (if keys[i] == Some(h) {
            positions_of(keys.take(i), h).push(i)
        } else {
            positions_of(keys.take(i), h)
        }),
{
    assert(keys.take(i + 1).drop_last() =~= keys.take(i));
}

proof fn lemma_positions_props(keys: Seq<Option<u128>>, h: u128)
    ensures
        forall|k: int|
            0 <= k < positions_of(keys, h).len() ==> 0 <= #[trigger] positions_of(keys, h)[k]
                < keys.len() && keys[positions_of(keys, h)[k]] == Some(h),
        forall|a: int, b: int|
            0 <= a < b < positions_of(keys, h).len() ==> #[trigger] positions_of(keys, h)[a]
                < #[trigger] positions_of(keys, h)[b],
        forall|k: int| 0 <= k < keys.len() && keys[k] == Some(h) ==> positions_of(keys, h).contains(k),
    decreases keys.len(),
{
    if keys.len() > 0 {
        let d = keys.drop_last();
        lemma_positions_props(d, h);
        let p = positions_of(d, h);
        let q = positions_of(keys, h);
        assert forall|k: int| 0 <= k < q.len() implies 0 <= #[trigger] q[k] < keys.len() && keys[q[k]]
            == Some(h) by {
            if k < p.len() {
                assert(q[k] == p[k]);
                assert(keys[p[k]] == d[p[k]]);
            }
        }
        assert forall|a: int, b: int| 0 <= a < b < q.len() implies #[trigger] q[a] < #[trigger] q[b] by {
            if b < p.len() {
                assert(q[a] == p[a] && q[b] == p[b]);
            } else {
                assert(q[a] == p[a]);
            }
        }
        assert forall|k: int| 0 <= k < keys.len() && keys[k] == Some(h) implies q.contains(k) by {
            if k < keys.len() - 1 {
                assert(d[k] == keys[k]);
                assert(p.contains(k));
                let w = choose|w: int| 0 <= w < p.len() && p[w] == k;
                assert(q[w] == k);
            } else {
                assert(q[q.len() - 1] == k);
            }
        }
    }
}

/// Counts, for each key, how often it occurs among `keys`.
fn key_counts(keys: &Vec<Option<u128>>) -> (m: HashMap<u128, usize>)
    ensures
        forall|h: u128| #[trigger] m@.contains_key(h) ==> m@[h] == positions_of(keys@, h).len(),
        forall|h: u128| !(#[trigger] m@.contains_key(h)) ==> positions_of(keys@, h).len() == 0,
{
    broadcast use vstd::std_specs::hash::group_hash_axioms;
    let mut m: HashMap<u128, usize> = HashMap::new();
    let mut i: usize = 0;
    while i < keys.len()
        invariant
            i <= keys@.len(),
            forall|h: u128|
                #[trigger] m@.contains_key(h) ==> m@[h] == positions_of(keys@.take(i as int), h).len(),
            forall|h: u128|
                !(#[trigger] m@.contains_key(h)) ==> positions_of(keys@.take(i as int), h).len() == 0,
            forall|h: u128| #[trigger] positions_of(keys@.take(i as int), h).len() <= i,
        decreases keys@.len() - i,
    {
        proof {
            assert forall|h: u128| positions_of(keys@.take(i + 1), h) == (if keys@[i as int] == Some(h) {
                positions_of(keys@.take(i as int), h).push(i as int)
            } else {
                positions_of(keys@.take(i as int), h)
            }) by {
                lemma_positions_step(keys@, i as int, h);
            }
            assert forall|h: u128| #[trigger] positions_of(keys@.take(i + 1), h).len() <= i + 1 by {
                lemma_positions_step(keys@, i as int, h);
            }
        }
        match keys[i] {
            Some(h) => {
                let c: usize = match m.get(&h) {
                    Some(c) => *c,
                    None => 0,
                };
                m.insert(h, c + 1);
            },
            None => {},
        }
        i = i + 1;
    }
    assert(keys@.take(keys@.len() as int) =~= keys@);
    m
}

/// Positions whose key occurs at least twice among `keys`, in increasing order.
pub fn shared_key_positions(keys: &Vec<Option<u128>>) -> (r: Vec<usize>)
    ensures
        same_indices(r@, shared_upto(keys@, keys@.len() as int)),
{
    broadcast use vstd::std_specs::hash::group_hash_axioms;
    let counts = key_counts(keys);
    let mut r: Vec<usize> = Vec::new();
    let mut i: usize = 0;
    while i < keys.len()
        invariant
            i <= keys@.len(),
            forall|h: u128| #[trigger] counts@.contains_key(h) ==> counts@[h] == positions_of(keys@, h).len(),
            forall|h: u128| !(#[trigger] counts@.contains_key(h)) ==> positions_of(keys@, h).len() == 0,
            same_indices(r@, shared_upto(keys@, i as int)),
        decreases keys@.len() - i,
    {
        let ghost old_r = r@;
        match keys[i] {
            Some(h) => {
                let shared = match counts.get(&h) {
                    Some(c) => *c >= 2,
                    None => false,
                };
                if shared {
                    r.push(i);
                }
            },
            None => {},
        }
        proof {
            let s = shared_upto(keys@, i + 1);
            assert(shared_upto(keys@, i + 1) == (if shared_at(keys@, i as int) {
                shared_upto(keys@, i as int).push(i as int)
            } else {
                shared_upto(keys@, i as int)
            }));
            assert forall|k: int| 0 <= k < r@.len() implies r@[k] as int == s[k] by {
                if k < old_r.len() {
                    assert(r@[k] == old_r[k]);
                }
            }
        }
        i = i + 1;
    }
    r
}

/// Size of every entry, as keys.
pub open spec fn size_keys(entries: Seq<FileEntry>) -> Seq<Option<u128>> {
    Seq::new(entries.len(), |i: int| Some(entries[i].size as u128))
}

/// The entries whose size another entry shares: only those can be byte-identical.
/// Indices into `entries`, in increasing order.
pub fn size_candidates(entries: &Vec<FileEntry>) -> (r: Vec<usize>)
    ensures
        same_indices(r@, shared_upto(size_keys(entries@), entries@.len() as int)),
{
    let mut keys: Vec<Option<u128>> = Vec::new();
    let mut i: usize = 0;
    while i < entries.len()
        invariant
            i <= entries@.len(),
            keys@.len() == i,
            forall|k: int| 0 <= k < i ==> keys@[k] == Some(entries@[k].size as u128),
        decreases entries@.len() - i,
    {
        keys.push(Some(entries[i].size as u128));
        i = i + 1;
    }
    assert(keys@ =~= size_keys(entries@));
    shared_key_positions(&keys)
}

/// The hashes as keys (`None` where hashing failed).
pub open spec fn hash_keys(hashes: Seq<Option<FileHash>>) -> Seq<Option<u128>> {
    Seq::new(
        hashes.len(),
        |i: int|
            match hashes[i] {
                Some(h) => Some(h.0),
                None => None,
            },
    )
}

/// Two positions holding the same hash both hold a shared key.
proof fn lemma_equal_hashes_shared(hs: Seq<Option<FileHash>>, p: int, q: int)
    requires
        0 <= p < hs.len(),
        0 <= q < hs.len(),
        p != q,
        hs[p] is Some,
        hs[p] == hs[q],
    ensures
        hash_keys(hs)[p] == Some((hs[p]->0).0),
        shared_at(hash_keys(hs), p),
        shared_at(hash_keys(hs), q),
        positions_of(hash_keys(hs), (hs[p]->0).0).contains(p),
        positions_of(hash_keys(hs), (hs[p]->0).0).contains(q),
{
    let keys = hash_keys(hs);
    let h = (hs[p]->0).0;
    assert(keys[p] == Some(h));
    assert(keys[q] == Some(h));
    lemma_positions_props(keys, h);
    let ps = positions_of(keys, h);
    let wp = choose|w: int| 0 <= w < ps.len() && ps[w] == p;
    let wq = choose|w: int| 0 <= w < ps.len() && ps[w] == q;
    assert(wp != wq);
}

/// A position whose key is shared has a partner: another position with the same hash.
proof fn lemma_shared_partner(hs: Seq<Option<FileHash>>, p: int)
    requires
        0 <= p < hs.len(),
        shared_at(hash_keys(hs), p),
    ensures
        hs[p] is Some,
        exists|q: int| 0 <= q < hs.len() && q != p && #[trigger] hs[q] == hs[p],
{
    let keys = hash_keys(hs);
    let h = keys[p]->0;
    lemma_positions_props(keys, h);
    let ps = positions_of(keys, h);
    let q = if ps[0] != p { ps[0] } else { ps[1] };
    assert(keys[q] == Some(h));
    assert(hs[q]->0 == hs[p]->0);
    assert(hs[q] == hs[p]);
}

/// Candidate `c` stands at a position whose hash another position holds too.
pub open spec fn held_with_partner(hashes: Seq<Option<FileHash>>, candidates: Seq<usize>, c: usize) -> bool {
    exists|p: int, q: int|
        #![trigger hashes[p], hashes[q]]
        0 <= p < hashes.len() && 0 <= q < hashes.len() && p != q && hashes[p] is Some && hashes[p]
            == hashes[q] && candidates[p] == c
}

/// Each kept candidate has a partner holding the same hash.
proof fn lemma_kept_have_partners(partial: Seq<Option<FileHash>>, candidates: Seq<usize>, r: Seq<usize>)
    requires
        partial.len() == candidates.len(),
        ({
            let s = shared_upto(hash_keys(partial), partial.len() as int);
            &&& r.len() == s.len()
            &&& forall|k: int| 0 <= k < s.len() ==> r[k] == candidates[#[trigger] s[k]]
        }),
    ensures
        forall|k: int| 0 <= k < r.len() ==> held_with_partner(partial, candidates, #[trigger] r[k]),
{
    let keys = hash_keys(partial);
    let s = shared_upto(keys, partial.len() as int);
    lemma_shared_upto_range(keys, keys.len() as int);
    assert forall|k: int| 0 <= k < r.len() implies held_with_partner(partial, candidates, #[trigger] r[k]) by {
        let p = s[k];
        assert(shared_at(keys, p));
        lemma_shared_partner(partial, p);
        let q = choose|q: int| 0 <= q < partial.len() && q != p && #[trigger] partial[q] == partial[p];
        assert(r[k] == candidates[p]);
    }
}

fn keys_of_hashes(hashes: &Vec<Option<FileHash>>) -> (keys: Vec<Option<u128>>)
    ensures
        keys@ == hash_keys(hashes@),
{
    let mut keys: Vec<Option<u128>> = Vec::new();
    let mut i: usize = 0;
    while i < hashes.len()
        invariant
            i <= hashes@.len(),
            keys@.len() == i,
            forall|k: int| 0 <= k < i ==> keys@[k] == hash_keys(hashes@)[k],
        decreases hashes@.len() - i,
    {
        let key = match hashes[i] {
            Some(h) => Some(h.0),
            None => None,
        };
        keys.push(key);
        i = i + 1;
    }
    assert(keys@ =~= hash_keys(hashes@));
    keys
}

/// Second pass: of the size candidates (indices into the scanned entries), those
/// whose first-block hash (`None` where it could not be computed) another candidate
/// shares. Candidates stay in their order.
pub fn partial_candidates(candidates: &Vec<usize>, partial: &Vec<Option<FileHash>>) -> (r: Vec<usize>)
    requires
        partial@.len() == candidates@.len(),
    ensures
        ({
            let s = shared_upto(hash_keys(partial@), partial@.len() as int);
            &&& r@.len() == s.len()
            &&& forall|k: int| 0 <= k < s.len() ==> r@[k] == candidates@[#[trigger] s[k]]
        }),
        forall|p: int, q: int|
            0 <= p < partial@.len() && 0 <= q < partial@.len() && p != q && partial@[p] is Some
                && #[trigger] partial@[p] == #[trigger] partial@[q] ==> r@.contains(candidates@[p]),
        forall|k: int| 0 <= k < r@.len() ==> held_with_partner(partial@, candidates@, #[trigger] r@[k]),
{
    let keys = keys_of_hashes(partial);
    let pos = shared_key_positions(&keys);
    let ghost s = shared_upto(hash_keys(partial@), partial@.len() as int);
    proof {
        lemma_shared_upto_range(keys@, keys@.len() as int);
    }
    let mut r: Vec<usize> = Vec::new();
    let mut k: usize = 0;
    while k < pos.len()
        invariant
            k <= pos@.len(),
            same_indices(pos@, s),
            keys@.len() == candidates@.len(),
            forall|a: int| 0 <= a < s.len() ==> 0 <= #[trigger] s[a] < keys@.len(),
            r@.len() == k,
            forall|a: int| 0 <= a < k ==> r@[a] == candidates@[#[trigger] s[a]],
        decreases pos@.len() - k,
    {
        assert(pos@[k as int] as int == s[k as int]);
        r.push(candidates[pos[k]]);
        k = k + 1;
    }
    proof {
        lemma_shared_upto_range(keys@, keys@.len() as int);
        assert forall|p: int, q: int|
            0 <= p < partial@.len() && 0 <= q < partial@.len() && p != q && partial@[p] is Some
                && #[trigger] partial@[p] == #[trigger] partial@[q] implies r@.contains(candidates@[p]) by {
            lemma_equal_hashes_shared(partial@, p, q);
            let w = choose|w: int| 0 <= w < s.len() && s[w] == p;
            assert(r@[w] == candidates@[p]);
        }
        lemma_kept_have_partners(partial@, candidates@, r@);
    }
    r
}

proof fn lemma_shared_upto_range(keys: Seq<Option<u128>>, m: int)
    requires
        m <= keys.len(),
    ensures
        forall|a: int| 0 <= a < shared_upto(keys, m).len() ==> 0 <= #[trigger] shared_upto(keys, m)[a] < m,
        forall|a: int, b: int| 0 <= a < b < shared_upto(keys, m).len() ==> #[trigger] shared_upto(keys, m)[a] < #[trigger] shared_upto(keys, m)[b],
        forall|k: int| 0 <= k < m && shared_at(keys, k) ==> shared_upto(keys, m).contains(k),
        forall|a: int| 0 <= a < shared_upto(keys, m).len() ==> shared_at(keys, #[trigger] shared_upto(keys, m)[a]),
    decreases m,
{
    if m > 0 {
        lemma_shared_upto_range(keys, m - 1);
        let p = shared_upto(keys, m - 1);
        let q = shared_upto(keys, m);
        assert forall|a: int| 0 <= a < q.len() implies 0 <= #[trigger] q[a] < m && shared_at(keys, q[a]) by {
            if a < p.len() {
                assert(q[a] == p[a]);
            }
        }
        assert forall|a: int, b: int| 0 <= a < b < q.len() implies #[trigger] q[a] < #[trigger] q[b] by {
            if b < p.len() {
                assert(q[a] == p[a] && q[b] == p[b]);
            } else {
                assert(q[a] == p[a]);
            }
        }
        assert forall|k: int| 0 <= k < m && shared_at(keys, k) implies q.contains(k) by {
            if k < m - 1 {
                let w = choose|w: int| 0 <= w < p.len() && p[w] == k;
                assert(q[w] == k);
            } else {
                assert(q[q.len() - 1] == k);
            }
        }
    }
}

/// The group of one full hash, as the result lists it: the hash occurs at least
/// twice, and the paths are those of the candidates holding it, in candidate order.
pub open spec fn full_group_ok(
    grp: (FileHash, Vec<String>),
    keys: Seq<Option<u128>>,
    candidates: Seq<usize>,
    entries: Seq<FileEntry>,
) -> bool {
    let ps = positions_of(keys, grp.0.0);
    &&& ps.len() >= 2
    &&& grp.1@.len() == ps.len()
    &&& forall|k: int| 0 <= k < ps.len() ==> (#[trigger] grp.1@[k])@ == entries[candidates[ps[k]] as int].path@
}

/// Some group of `r` has hash `h` and lists both paths `a` and `b`.
pub open spec fn listed_together(r: Seq<(FileHash, Vec<String>)>, h: FileHash, a: Seq<char>, b: Seq<char>) -> bool {
    exists|g: int, x: int, y: int|
        #![trigger r[g].1@[x], r[g].1@[y]]
        0 <= g < r.len() && r[g].0 == h && 0 <= x < r[g].1@.len() && 0 <= y < r[g].1@.len()
            && r[g].1@[x]@ == a && r[g].1@[y]@ == b
}

/// Two different positions hold the hash `h`.
pub open spec fn held_twice(hashes: Seq<Option<FileHash>>, h: FileHash) -> bool {
    exists|p: int, q: int|
        #![trigger hashes[p], hashes[q]]
        0 <= p < hashes.len() && 0 <= q < hashes.len() && p != q && hashes[p] == Some(h) && hashes[q]
            == Some(h)
}

/// `path` is the path of a candidate whose hash is `h`.
pub open spec fn path_of_holder(
    hashes: Seq<Option<FileHash>>,
    candidates: Seq<usize>,
    entries: Seq<FileEntry>,
    h: FileHash,
    path: Seq<char>,
) -> bool {
    exists|p: int|
        #![trigger hashes[p]]
        0 <= p < hashes.len() && hashes[p] == Some(h) && entries[candidates[p] as int].path@ == path
}

/// The full-hash groups said over the hashes themselves: any two candidates with the
/// same hash are listed in one group with that hash; every group's hash is held by two
/// candidates; and every path a group lists is that of a candidate holding its hash.
proof fn lemma_full_groups_direct(
    r: Seq<(FileHash, Vec<String>)>,
    full: Seq<Option<FileHash>>,
    candidates: Seq<usize>,
    entries: Seq<FileEntry>,
)
    requires
        full.len() == candidates.len(),
        forall|g: int| 0 <= g < r.len() ==> full_group_ok(#[trigger] r[g], hash_keys(full), candidates, entries),
        forall|k: int|
            0 <= k < full.len() && #[trigger] shared_at(hash_keys(full), k) ==> exists|g: int|
                0 <= g < r.len() && hash_keys(full)[k] == Some(#[trigger] r[g].0.0),
    ensures
        forall|p: int, q: int|
            0 <= p < full.len() && 0 <= q < full.len() && p != q && full[p] is Some
                && #[trigger] full[p] == #[trigger] full[q] ==> listed_together(
                r,
                full[p]->0,
                entries[candidates[p] as int].path@,
                entries[candidates[q] as int].path@,
            ),
        forall|g: int| 0 <= g < r.len() ==> held_twice(full, #[trigger] r[g].0),
        forall|g: int, k: int|
            0 <= g < r.len() && 0 <= k < r[g].1@.len() ==> path_of_holder(
                full,
                candidates,
                entries,
                r[g].0,
                #[trigger] r[g].1@[k]@,
            ),
{
    let kv = hash_keys(full);
    assert forall|p: int, q: int|
        0 <= p < full.len() && 0 <= q < full.len() && p != q && full[p] is Some
            && #[trigger] full[p] == #[trigger] full[q] implies listed_together(
        r,
        full[p]->0,
        entries[candidates[p] as int].path@,
        entries[candidates[q] as int].path@,
    ) by {
        lemma_equal_hashes_shared(full, p, q);
        let g = choose|g: int| 0 <= g < r.len() && kv[p] == Some(#[trigger] r[g].0.0);
        assert(full_group_ok(r[g], kv, candidates, entries));
        let ps = positions_of(kv, r[g].0.0);
        let x = choose|w: int| 0 <= w < ps.len() && ps[w] == p;
        let y = choose|w: int| 0 <= w < ps.len() && ps[w] == q;
        assert(r[g].1@[x]@ == entries[candidates[p] as int].path@);
        assert(r[g].1@[y]@ == entries[candidates[q] as int].path@);
        assert(r[g].0 == full[p]->0);
    }
    assert forall|g: int| 0 <= g < r.len() implies held_twice(full, #[trigger] r[g].0) by {
        assert(full_group_ok(r[g], kv, candidates, entries));
        let h = r[g].0.0;
        lemma_positions_props(kv, h);
        let ps = positions_of(kv, h);
        assert(kv[ps[0]] == Some(h));
        assert(kv[ps[1]] == Some(h));
        assert(full[ps[0]] == Some(r[g].0));
        assert(full[ps[1]] == Some(r[g].0));
    }
    assert forall|g: int, k: int| 0 <= g < r.len() && 0 <= k < r[g].1@.len() implies path_of_holder(
        full,
        candidates,
        entries,
        r[g].0,
        #[trigger] r[g].1@[k]@,
    ) by {
        assert(full_group_ok(r[g], kv, candidates, entries));
        let h = r[g].0.0;
        lemma_positions_props(kv, h);
        let ps = positions_of(kv, h);
        assert(kv[ps[k]] == Some(h));
        assert(full[ps[k]] == Some(r[g].0));
    }
}

/// Buckets of positions by key, in order of first occurrence, over the first `i` keys.
spec fn buckets_ok(buckets: Seq<(u128, Vec<usize>)>, index: Map<u128, usize>, keys: Seq<Option<u128>>) -> bool {
    &&& forall|g: int|
        0 <= g < buckets.len() ==> {
            &&& same_indices((#[trigger] buckets[g]).1@, positions_of(keys, buckets[g].0))
            &&& positions_of(keys, buckets[g].0).len() > 0
            &&& index.contains_key(buckets[g].0)
            &&& index[buckets[g].0] == g
        }
    &&& forall|g1: int, g2: int|
        0 <= g1 < g2 < buckets.len() ==> positions_of(keys, (#[trigger] buckets[g1]).0)[0]
            < positions_of(keys, (#[trigger] buckets[g2]).0)[0]
    &&& forall|h: u128| #[trigger] index.contains_key(h) <==> positions_of(keys, h).len() > 0
    &&& forall|h: u128| #[trigger] index.contains_key(h) ==> index[h] < buckets.len() && buckets[index[h] as int].0 == h
}

fn bucket_positions(keys: &Vec<Option<u128>>) -> (r: (Vec<(u128, Vec<usize>)>, HashMap<u128, usize>))
    ensures
        buckets_ok(r.0@, r.1@, keys@),
{
    broadcast use vstd::std_specs::hash::group_hash_axioms;
    let mut buckets: Vec<(u128, Vec<usize>)> = Vec::new();
    let mut index: HashMap<u128, usize> = HashMap::new();
    let mut i: usize = 0;
    while i < keys.len()
        invariant
            i <= keys@.len(),
            buckets_ok(buckets@, index@, keys@.take(i as int)),
        decreases keys@.len() - i,
    {
        let ghost ks = keys@.take(i as int);
        let ghost ks1 = keys@.take(i + 1);
        let ghost old_b = buckets@;
        let ghost old_ix = index@;
        proof {
            assert forall|h: u128| positions_of(ks1, h) == (if keys@[i as int] == Some(h) {
                positions_of(ks, h).push(i as int)
            } else {
                positions_of(ks, h)
            }) by {
                lemma_positions_step(keys@, i as int, h);
            }
            assert forall|h: u128, k: int| 0 <= k < positions_of(ks, h).len() implies #[trigger] positions_of(ks, h)[k] < i by {
                lemma_positions_props(ks, h);
            }
        }
        match keys[i] {
            Some(h) => {
                let found: Option<usize> = match index.get(&h) {
                    Some(g) => Some(*g),
                    None => None,
                };
                match found {
                    Some(g) => {
                        buckets[g].1.push(i);
                        proof {
                            assert forall|a: int| 0 <= a < buckets@.len() implies {
                                &&& same_indices((#[trigger] buckets@[a]).1@, positions_of(ks1, buckets@[a].0))
                                &&& positions_of(ks1, buckets@[a].0).len() > 0
                                &&& index@.contains_key(buckets@[a].0)
                                &&& index@[buckets@[a].0] == a
                            } by {
                                if a != g {
                                    assert(buckets@[a] == old_b[a]);
                                    assert(old_b[a].0 != h);
                                }
                            }
                            assert forall|g1: int, g2: int| 0 <= g1 < g2 < buckets@.len() implies positions_of(
                                ks1,
                                (#[trigger] buckets@[g1]).0,
                            )[0] < positions_of(ks1, (#[trigger] buckets@[g2]).0)[0] by {
                                assert(buckets@[g1].0 == old_b[g1].0);
                                assert(buckets@[g2].0 == old_b[g2].0);
                            }
                        }
                    },
                    None => {
                        let g = buckets.len();
                        let mut members: Vec<usize> = Vec::new();
                        members.push(i);
                        buckets.push((h, members));
                        index.insert(h, g);
                        proof {
                            assert forall|a: int| 0 <= a < buckets@.len() implies {
                                &&& same_indices((#[trigger] buckets@[a]).1@, positions_of(ks1, buckets@[a].0))
                                &&& positions_of(ks1, buckets@[a].0).len() > 0
                                &&& index@.contains_key(buckets@[a].0)
                                &&& index@[buckets@[a].0] == a
                            } by {
                                if a < g {
                                    assert(buckets@[a] == old_b[a]);
                                    assert(old_b[a].0 != h);
                                } else {
                                    assert(positions_of(ks, h).len() == 0);
                                    assert(positions_of(ks1, h) =~= seq![i as int]);
                                }
                            }
                            assert forall|g1: int, g2: int| 0 <= g1 < g2 < buckets@.len() implies positions_of(
                                ks1,
                                (#[trigger] buckets@[g1]).0,
                            )[0] < positions_of(ks1, (#[trigger] buckets@[g2]).0)[0] by {
                                assert(buckets@[g1] == old_b[g1]);
                                if g2 < g {
                                    assert(buckets@[g2] == old_b[g2]);
                                } else {
                                    assert(positions_of(ks, h).len() == 0);
                                    assert(positions_of(ks1, h) =~= seq![i as int]);
                                    assert(old_b[g1].0 != h);
                                    assert(positions_of(ks, old_b[g1].0)[0] < i);
                                }
                            }
                            assert forall|h2: u128| #[trigger] index@.contains_key(h2) implies index@[h2]
                                < buckets@.len() && buckets@[index@[h2] as int].0 == h2 by {
                                if h2 != h {
                                    assert(old_ix.contains_key(h2));
                                    assert(buckets@[old_ix[h2] as int] == old_b[old_ix[h2] as int]);
                                }
                            }
                        }
                    },
                }
            },
            None => {
                proof {
                    assert forall|a: int| 0 <= a < buckets@.len() implies {
                        &&& same_indices((#[trigger] buckets@[a]).1@, positions_of(ks1, buckets@[a].0))
                        &&& positions_of(ks1, buckets@[a].0).len() > 0
                        &&& index@.contains_key(buckets@[a].0)
                        &&& index@[buckets@[a].0] == a
                    } by {}
                }
            },
        }
        i = i + 1;
    }
    assert(keys@.take(keys@.len() as int) =~= keys@);
    (buckets, index)
}

/// Third pass: groups the remaining candidates (indices into `entries`) by their full
/// content hash (`None` where it could not be computed). Each group lists the paths
/// of the candidates with that hash, in candidate order; only hashes held by two or
/// more candidates make a group; groups come in order of their first candidate.
pub fn group_by_full_hash(
    entries: &Vec<FileEntry>,
    candidates: &Vec<usize>,
    full: &Vec<Option<FileHash>>,
) -> (r: Vec<(FileHash, Vec<String>)>)
    requires
        full@.len() == candidates@.len(),
        forall|k: int| 0 <= k < candidates@.len() ==> (#[trigger] candidates@[k]) < entries@.len(),
    ensures
        forall|g: int|
            0 <= g < r@.len() ==> full_group_ok(#[trigger] r@[g], hash_keys(full@), candidates@, entries@),
        forall|g1: int, g2: int|
            0 <= g1 < g2 < r@.len() ==> positions_of(hash_keys(full@), (#[trigger] r@[g1]).0.0)[0]
                < positions_of(hash_keys(full@), (#[trigger] r@[g2]).0.0)[0],
        forall|g1: int, g2: int| 0 <= g1 < g2 < r@.len() ==> (#[trigger] r@[g1]).0 != (#[trigger] r@[g2]).0,
        forall|k: int|
            0 <= k < full@.len() && #[trigger] shared_at(hash_keys(full@), k) ==> exists|g: int|
                0 <= g < r@.len() && hash_keys(full@)[k] == Some(#[trigger] r@[g].0.0),
        forall|p: int, q: int|
            0 <= p < full@.len() && 0 <= q < full@.len() && p != q && full@[p] is Some
                && #[trigger] full@[p] == #[trigger] full@[q] ==> listed_together(
                r@,
                full@[p]->0,
                entries@[candidates@[p] as int].path@,
                entries@[candidates@[q] as int].path@,
            ),
        forall|g: int| 0 <= g < r@.len() ==> held_twice(full@, #[trigger] r@[g].0),
        forall|g: int, k: int|
            0 <= g < r@.len() && 0 <= k < r@[g].1@.len() ==> path_of_holder(
                full@,
                candidates@,
                entries@,
                r@[g].0,
                #[trigger] r@[g].1@[k]@,
            ),
{
    let keys = keys_of_hashes(full);
    let (buckets, index) = bucket_positions(&keys);
    let ghost kv = keys@;
    let mut r: Vec<(FileHash, Vec<String>)> = Vec::new();
    let ghost mut src: Seq<int> = seq![];
    let mut b: usize = 0;
    while b < buckets.len()
        invariant
            b <= buckets@.len(),
            kv == keys@,
            kv == hash_keys(full@),
            kv.len() == candidates@.len(),
            forall|k: int| 0 <= k < candidates@.len() ==> (#[trigger] candidates@[k]) < entries@.len(),
            buckets_ok(buckets@, index@, kv),
            src.len() == r@.len(),
            forall|o: int| 0 <= o < src.len() ==> 0 <= #[trigger] src[o] < b,
            forall|o1: int, o2: int| 0 <= o1 < o2 < src.len() ==> #[trigger] src[o1] < #[trigger] src[o2],
            forall|o: int| 0 <= o < src.len() ==> (#[trigger] r@[o]).0.0 == buckets@[src[o]].0,
            forall|o: int| 0 <= o < r@.len() ==> full_group_ok(#[trigger] r@[o], kv, candidates@, entries@),
            forall|g: int| 0 <= g < b && (#[trigger] buckets@[g]).1@.len() >= 2 ==> exists|o: int| 0 <= o < src.len() && src[o] == g,
        decreases buckets@.len() - b,
    {
        let members = &buckets[b].1;
        if members.len() >= 2 {
            let h = buckets[b].0;
            let ghost ps = positions_of(kv, h);
            proof {
                lemma_positions_props(kv, h);
                assert(same_indices(members@, ps));
            }
            let mut paths: Vec<String> = Vec::new();
            let mut k: usize = 0;
            while k < members.len()
                invariant
                    b < buckets@.len(),
                    *members == buckets@[b as int].1,
                    same_indices(members@, ps),
                    forall|a: int| 0 <= a < ps.len() ==> 0 <= #[trigger] ps[a] < kv.len(),
                    kv.len() == candidates@.len(),
                    forall|a: int| 0 <= a < candidates@.len() ==> (#[trigger] candidates@[a]) < entries@.len(),
                    k <= members@.len(),
                    paths@.len() == k,
                    forall|a: int| 0 <= a < k ==> (#[trigger] paths@[a])@ == entries@[candidates@[ps[a]] as int].path@,
                decreases members@.len() - k,
            {
                let p = members[k];
                assert(p as int == ps[k as int]);
                let e = candidates[p];
                paths.push(entries[e].path.clone());
                k = k + 1;
            }
            let ghost old_r = r@;
            let ghost old_src = src;
            r.push((FileHash(h), paths));
            proof {
                src = src.push(b as int);
                assert forall|o: int| 0 <= o < r@.len() implies full_group_ok(#[trigger] r@[o], kv, candidates@, entries@) by {
                    if o < old_r.len() {
                        assert(r@[o] == old_r[o]);
                    }
                }
                assert forall|o: int| 0 <= o < src.len() implies (#[trigger] r@[o]).0.0 == buckets@[src[o]].0 by {
                    if o < old_r.len() {
                        assert(r@[o] == old_r[o]);
                    }
                }
                assert forall|g: int| 0 <= g < b + 1 && (#[trigger] buckets@[g]).1@.len() >= 2 implies exists|o: int| 0 <= o < src.len() && src[o] == g by {
                    if g == b {
                        assert(src[src.len() - 1] == g);
                    } else {
                        let o = choose|o: int| 0 <= o < old_src.len() && old_src[o] == g;
                        assert(src[o] == g);
                    }
                }
            }
        }
        b = b + 1;
    }
    proof {
        assert forall|g1: int, g2: int| 0 <= g1 < g2 < r@.len() implies positions_of(kv, (#[trigger] r@[g1]).0.0)[0]
            < positions_of(kv, (#[trigger] r@[g2]).0.0)[0] by {
            assert(src[g1] < src[g2]);
            assert(buckets@[src[g1]].0 == r@[g1].0.0);
            assert(buckets@[src[g2]].0 == r@[g2].0.0);
        }
        assert forall|k: int| 0 <= k < full@.len() && #[trigger] shared_at(kv, k) implies exists|g: int|
            0 <= g < r@.len() && kv[k] == Some(#[trigger] r@[g].0.0) by {
            let h = kv[k]->0;
            assert(index@.contains_key(h));
            let gi = index@[h] as int;
            assert(buckets@[gi].0 == h);
            assert(same_indices(buckets@[gi].1@, positions_of(kv, h)));
            let o = choose|o: int| 0 <= o < src.len() && src[o] == gi;
            assert(r@[o].0.0 == h);
        }
        lemma_full_groups_direct(r@, full@, candidates@, entries@);
    }
    r
}

/// Any two positions holding the same hash are both among the positions whose hash is
/// shared, the ones the partial stage keeps.
pub proof fn law_equal_hashes_kept(hs: Seq<Option<FileHash>>)
    ensures
        forall|p: int, q: int|
            0 <= p < hs.len() && 0 <= q < hs.len() && p != q && hs[p] is Some && #[trigger] hs[p]
                == #[trigger] hs[q] ==> shared_upto(hash_keys(hs), hs.len() as int).contains(p),
{
    lemma_shared_upto_range(hash_keys(hs), hs.len() as int);
    assert forall|p: int, q: int|
        0 <= p < hs.len() && 0 <= q < hs.len() && p != q && hs[p] is Some && #[trigger] hs[p]
            == #[trigger] hs[q] implies shared_upto(hash_keys(hs), hs.len() as int).contains(p) by {
        lemma_equal_hashes_shared(hs, p, q);
    }
}

/// Only same-size files go on to be hashed: every size candidate has a size that at
/// least two scanned entries have, and every entry whose size another entry shares
/// is a candidate.
pub proof fn law_size_candidates(entries: Seq<FileEntry>)
    ensures
        ({
            let keys = size_keys(entries);
            let s = shared_upto(keys, entries.len() as int);
            &&& forall|k: int|
                0 <= k < s.len() ==> 0 <= #[trigger] s[k] < entries.len() && positions_of(keys, entries[s[k]].size as u128).len() >= 2
            &&& forall|i: int|
                0 <= i < entries.len() && positions_of(keys, entries[i].size as u128).len() >= 2 ==> s.contains(i)
        }),
{
    let keys = size_keys(entries);
    let s = shared_upto(keys, entries.len() as int);
    lemma_shared_upto_range(keys, entries.len() as int);
    assert forall|k: int| 0 <= k < s.len() implies 0 <= #[trigger] s[k] < entries.len() && positions_of(
        keys,
        entries[s[k]].size as u128,
    ).len() >= 2 by {
        assert(shared_at(keys, s[k]));
        assert(keys[s[k]] == Some(entries[s[k]].size as u128));
    }
    assert forall|i: int| 0 <= i < entries.len() && positions_of(keys, entries[i].size as u128).len() >= 2 implies s.contains(i) by {
        assert(keys[i] == Some(entries[i].size as u128));
        assert(shared_at(keys, i));
    }
}

} // verus!
