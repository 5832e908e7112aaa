//! The metadata cache: a mapping from file identity (canonical path)
//! to a change-detection signature and the probe record taken when
//! that signature was current.
//!
//! A lookup returns a record only under a byte-equal signature, so a
//! changed file size or modification time always forces a fresh
//! probe. Persistence — reading and rewriting the cache file — is the
//! caller's concern; the structure itself is pure state.

use vstd::prelude::*;

use crate::num::dec_rep;
use crate::num::push_dec_u128;
use crate::record::ProbeRecord;
use crate::record::ProbeRecordV;
use crate::text::push_char;
use crate::text::str_eq;
use vstd::string::StringExecFns;

verus! {

/// One cached probe: the signature the file had, and what the prober
/// said then.
#[derive(Clone, PartialEq, Debug)]
pub struct CacheEntry {
    pub signature: String,
    pub probe: ProbeRecord,
}

/// The mathematical value of a `CacheEntry`.
pub struct CacheEntryV {
    pub signature: Seq<char>,
    pub probe: ProbeRecordV,
}

impl View for CacheEntry {
    type V = CacheEntryV;

    open spec fn view(&self) -> CacheEntryV {
        CacheEntryV { signature: self.signature@, probe: self.probe@ }
    }
}

/// The mapping a sequence of key–entry pairs denotes; a later pair
/// with the same key would win, though a well-formed cache never
/// holds one.
pub open spec fn map_of(s: Seq<(Seq<char>, CacheEntryV)>) -> Map<Seq<char>, CacheEntryV>
    decreases s.len(),
{
    if s.len() == 0 {
        Map::empty()
    } else {
        map_of(s.drop_last()).insert(s.last().0, s.last().1)
    }
}

/// What a cache lookup under a current signature yields: the stored
/// record exactly when the identity is present and its stored
/// signature equals the current one byte for byte.
pub open spec fn spec_cache_lookup(
    m: Map<Seq<char>, CacheEntryV>,
    id: Seq<char>,
    sig: Seq<char>,
) -> Option<ProbeRecordV> {
    if m.contains_key(id) && m[id].signature == sig {
        Some(m[id].probe)
    } else {
        None
    }
}

/// The in-memory cache: identity-keyed probe records.
pub struct Cache {
    entries: Vec<(String, CacheEntry)>,
}

impl Cache {
    /// The cache as a sequence of key–entry pairs, in insertion
    /// order.
    pub closed spec fn seq_view(self) -> Seq<(Seq<char>, CacheEntryV)> {
        Seq::new(self.entries@.len(), |i: int| (self.entries@[i].0@, self.entries@[i].1@))
    }

    /// Keys are unique: each identity holds at most one entry.
    pub open spec fn wf(self) -> bool {
        forall|i: int, j: int|
            0 <= i < j < self.seq_view().len() ==> (#[trigger] self.seq_view()[i]).0 != (
            #[trigger] self.seq_view()[j]).0
    }

    /// An empty cache: the cold-cache starting point, also what a
    /// missing or corrupt persisted store loads as.
    pub fn new() -> (c: Cache)
        ensures
            c.wf(),
            c@ == Map::<Seq<char>, CacheEntryV>::empty(),
            c.seq_view() == Seq::<(Seq<char>, CacheEntryV)>::empty(),
    {
        let c = Cache { entries: Vec::new() };
        proof {
            assert(c.seq_view() =~= Seq::<(Seq<char>, CacheEntryV)>::empty());
        }
        c
    }

    /// The number of cached identities.
    pub fn len(&self) -> (n: usize)
        ensures
            n == self.seq_view().len(),
    {
        self.entries.len()
    }

    /// The pair at one position, for walking the cache's contents.
    pub fn entry_at(&self, i: usize) -> (r: &(String, CacheEntry))
        requires
            i < self.seq_view().len(),
        ensures
            r.0@ == self.seq_view()[i as int].0,
            r.1@ == self.seq_view()[i as int].1,
    {
        &self.entries[i]
    }

    fn find_index(&self, key: &str) -> (r: Option<usize>)
        ensures
            match r {
                Some(i) => i < self.seq_view().len() && self.seq_view()[i as int].0 == key@,
                None => forall|j: int|
                    0 <= j < self.seq_view().len() ==> (#[trigger] self.seq_view()[j]).0 != key@,
            },
    {
        let n = self.entries.len();
        let mut i: usize = 0;
        while i < n
            invariant
                i <= n,
                n == self.entries@.len(),
                forall|j: int| 0 <= j < i ==> (#[trigger] self.seq_view()[j]).0 != key@,
            decreases n - i,
        {
            if str_eq(self.entries[i].0.as_str(), key) {
                return Some(i);
            }
            i += 1;
        }
        None
    }

    /// Returns the cached record for `identity` only when an entry
    /// exists and its stored signature equals `current_signature`;
    /// any absence or mismatch yields nothing and so forces a fresh
    /// probe.
    pub fn get(&self, identity: &str, current_signature: &str) -> (r: Option<&ProbeRecord>)
        requires
            self.wf(),
        ensures
            match r {
                Some(p) => spec_cache_lookup(self@, identity@, current_signature@) == Some(p@),
                None => spec_cache_lookup(self@, identity@, current_signature@) is None,
            },
    {
        match self.find_index(identity) {
            None => {
                proof {
                    lemma_map_of_absent(self.seq_view(), identity@);
                }
                None
            },
            Some(i) => {
                proof {
                    lemma_map_of_present(self.seq_view(), i as int);
                }
                let entry = &self.entries[i].1;
                if str_eq(entry.signature.as_str(), current_signature) {
                    Some(&entry.probe)
                } else {
                    None
                }
            },
        }
    }

    /// Upserts the entry for `identity`: a fresh probe result
    /// replaces whatever was cached. The caller persists the whole
    /// cache afterwards.
    pub fn put(&mut self, identity: String, signature: String, probe: ProbeRecord)
        requires
            old(self).wf(),
        ensures
            final(self).wf(),
            final(self)@ == old(self)@.insert(
                identity@,
                (CacheEntryV { signature: signature@, probe: probe@ }),
            ),
    {
        let entry = CacheEntry { signature, probe };
        match self.find_index(identity.as_str()) {
            Some(i) => {
                let ghost pre = self.seq_view();
                self.entries.set(i, (identity, entry));
                proof {
                    assert(self.seq_view() =~= pre.update(
                        i as int,
                        (pre[i as int].0, entry@),
                    ));
                    lemma_map_of_update(pre, i as int, entry@);
                }
            },
            None => {
                let ghost pre = self.seq_view();
                self.entries.push((identity, entry));
                proof {
                    assert(self.seq_view() =~= pre.push((identity@, entry@)));
                    assert(self.seq_view().drop_last() =~= pre);
                    assert forall|i: int, j: int|
                        0 <= i < j < self.seq_view().len() implies (
                    #[trigger] self.seq_view()[i]).0 != (#[trigger] self.seq_view()[j]).0 by {
                        if j < self.seq_view().len() - 1 {
                        } else {
                            assert(pre[i].0 != identity@);
                        }
                    }
                }
            },
        }
    }
}

proof fn lemma_map_of_absent(s: Seq<(Seq<char>, CacheEntryV)>, k: Seq<char>)
    requires
        forall|j: int| 0 <= j < s.len() ==> (#[trigger] s[j]).0 != k,
    ensures
        !map_of(s).contains_key(k),
    decreases s.len(),
{
    if s.len() > 0 {
        assert forall|j: int| 0 <= j < s.drop_last().len() implies (
        #[trigger] s.drop_last()[j]).0 != k by {
            assert(s.drop_last()[j] == s[j]);
        }
        lemma_map_of_absent(s.drop_last(), k);
        assert(s.last() == s[s.len() - 1]);
    }
}

proof fn lemma_map_of_present(s: Seq<(Seq<char>, CacheEntryV)>, i: int)
    requires
        0 <= i < s.len(),
        forall|p: int, q: int|
            0 <= p < q < s.len() ==> (#[trigger] s[p]).0 != (#[trigger] s[q]).0,
    ensures
        map_of(s).contains_key(s[i].0),
        map_of(s)[s[i].0] == s[i].1,
    decreases s.len(),
{
    if i == s.len() - 1 {
        assert(s.last() == s[i]);
    } else {
        assert forall|p: int, q: int|
            0 <= p < q < s.drop_last().len() implies (#[trigger] s.drop_last()[p]).0 != (
        #[trigger] s.drop_last()[q]).0 by {
            assert(s.drop_last()[p] == s[p]);
            assert(s.drop_last()[q] == s[q]);
        }
        lemma_map_of_present(s.drop_last(), i);
        assert(s.drop_last()[i] == s[i]);
        assert(s.last() == s[s.len() - 1]);
        assert(s[i].0 != s[s.len() - 1].0);
    }
}

proof fn lemma_map_of_update(s: Seq<(Seq<char>, CacheEntryV)>, i: int, v: CacheEntryV)
    requires
        0 <= i < s.len(),
        forall|p: int, q: int|
            0 <= p < q < s.len() ==> (#[trigger] s[p]).0 != (#[trigger] s[q]).0,
    ensures
        map_of(s.update(i, (s[i].0, v))) == map_of(s).insert(s[i].0, v),
    decreases s.len(),
{
    let t = s.update(i, (s[i].0, v));
    if i == s.len() - 1 {
        assert(t.drop_last() =~= s.drop_last());
        assert(t.last() == (s[i].0, v));
        assert(map_of(t) == map_of(s.drop_last()).insert(s[i].0, v));
        assert(map_of(s) == map_of(s.drop_last()).insert(s[i].0, s[i].1));
        assert(map_of(s).insert(s[i].0, v) =~= map_of(s.drop_last()).insert(s[i].0, v));
    } else {
        assert forall|p: int, q: int|
            0 <= p < q < s.drop_last().len() implies (#[trigger] s.drop_last()[p]).0 != (
        #[trigger] s.drop_last()[q]).0 by {
            assert(s.drop_last()[p] == s[p]);
            assert(s.drop_last()[q] == s[q]);
        }
        lemma_map_of_update(s.drop_last(), i, v);
        assert(t.drop_last() =~= s.drop_last().update(i, (s[i].0, v))) by {
            assert(s.drop_last()[i] == s[i]);
        }
        assert(t.last() == s.last());
        assert(map_of(t) == map_of(s.drop_last()).insert(s[i].0, v).insert(
            s.last().0,
            s.last().1,
        ));
        assert(s[i].0 != s.last().0) by {
            assert(s.last() == s[s.len() - 1]);
        }
        assert(map_of(s.drop_last()).insert(s[i].0, v).insert(s.last().0, s.last().1)
            =~= map_of(s.drop_last()).insert(s.last().0, s.last().1).insert(s[i].0, v));
    }
}

impl View for Cache {
    type V = Map<Seq<char>, CacheEntryV>;

    closed spec fn view(&self) -> Map<Seq<char>, CacheEntryV> {
        map_of(self.seq_view())
    }
}

impl Cache {
    /// Every stored pair is what the mapping says for its key: the
    /// sequence exposed by `entry_at` and the map view agree.
    pub proof fn lemma_entries_in_map(self)
        requires
            self.wf(),
        ensures
            forall|i: int|
                0 <= i < self.seq_view().len() ==> self@.contains_key(
                    (#[trigger] self.seq_view()[i]).0,
                ) && self@[self.seq_view()[i].0] == self.seq_view()[i].1,
    {
        assert forall|i: int| 0 <= i < self.seq_view().len() implies self@.contains_key(
            (#[trigger] self.seq_view()[i]).0,
        ) && self@[self.seq_view()[i].0] == self.seq_view()[i].1 by {
            lemma_map_of_present(self.seq_view(), i);
        }
    }
}

/// Law: probing the same unmodified file twice serves the second
/// probe from the cache — after an entry is stored under a
/// signature, a lookup with that same identity and signature returns
/// exactly the stored record.
pub proof fn lemma_cache_hit_after_put(
    m: Map<Seq<char>, CacheEntryV>,
    id: Seq<char>,
    sig: Seq<char>,
    probe: ProbeRecordV,
)
    ensures
        spec_cache_lookup(m.insert(id, (CacheEntryV { signature: sig, probe })), id, sig)
            == Some(probe),
{
}

/// Law: any change of the signature — file size or modification time
/// — invalidates the entry: a lookup under a different signature
/// returns nothing, whatever is stored.
pub proof fn lemma_cache_miss_after_change(
    m: Map<Seq<char>, CacheEntryV>,
    id: Seq<char>,
    sig: Seq<char>,
    probe: ProbeRecordV,
    new_sig: Seq<char>,
)
    requires
        new_sig != sig,
    ensures
        spec_cache_lookup(m.insert(id, (CacheEntryV { signature: sig, probe })), id, new_sig)
            is None,
{
}

/// Stores a fresh probe result under a file's identity and current
/// signature; the in-memory half of recording a successful probe,
/// before the caller rewrites the persisted store.
pub fn save_to_cache(cache: &mut Cache, identity: String, signature: String, probe: ProbeRecord)
    requires
        old(cache).wf(),
    ensures
        final(cache).wf(),
        final(cache)@ == old(cache)@.insert(
            identity@,
            (CacheEntryV { signature: signature@, probe: probe@ }),
        ),
{
    cache.put(identity, signature, probe)
}

/// The change-detection signature: `<size>-<modified>`, both in
/// decimal. Byte-equal signatures mean an unchanged file.
pub fn signature_string(size: u64, modified: u64) -> (r: String)
    ensures
        r@ == dec_rep(size as int) + seq!['-'] + dec_rep(modified as int),
{
    let mut out = String::new();
    push_dec_u128(size as u128, &mut out);
    push_char(&mut out, '-');
    push_dec_u128(modified as u128, &mut out);
    proof {
        assert(out@ =~= dec_rep(size as int) + seq!['-'] + dec_rep(modified as int));
    }
    out
}

/// Law: the signature separates files faithfully — two size/mtime
/// pairs produce the same signature string only when they are the
/// same pair. With `lemma_cache_miss_after_change`, any change to a
/// file's size or modification time therefore forces a fresh probe.
pub proof fn lemma_signature_injective(s1: u64, m1: u64, s2: u64, m2: u64)
    requires
        dec_rep(s1 as int) + seq!['-'] + dec_rep(m1 as int) == dec_rep(s2 as int) + seq!['-']
            + dec_rep(m2 as int),
    ensures
        s1 == s2,
        m1 == m2,
{
    let a1 = dec_rep(s1 as int);
    let b1 = dec_rep(m1 as int);
    let a2 = dec_rep(s2 as int);
    let b2 = dec_rep(m2 as int);
    crate::num::lemma_dec_rep_digits(s1 as int);
    crate::num::lemma_dec_rep_digits(m1 as int);
    crate::num::lemma_dec_rep_digits(s2 as int);
    crate::num::lemma_dec_rep_digits(m2 as int);
    let w = a1 + seq!['-'] + b1;
    // the dash after the size digits is the first dash of the whole
    assert forall|k: int| 0 <= k < a1.len() implies w[k] != '-' by {
        assert(w[k] == a1[k]);
        assert(crate::num::is_digit(a1[k]));
    }
    assert(w[a1.len() as int] == '-');
    crate::text::lemma_first_index_at(w, '-', a1.len() as int);
    let v = a2 + seq!['-'] + b2;
    assert forall|k: int| 0 <= k < a2.len() implies v[k] != '-' by {
        assert(v[k] == a2[k]);
        assert(crate::num::is_digit(a2[k]));
    }
    assert(v[a2.len() as int] == '-');
    crate::text::lemma_first_index_at(v, '-', a2.len() as int);
    assert(a1.len() == a2.len());
    assert(a1 =~= w.take(a1.len() as int));
    assert(a2 =~= v.take(a2.len() as int));
    assert(b1 =~= w.skip(a1.len() as int + 1));
    assert(b2 =~= v.skip(a2.len() as int + 1));
    assert(a1 == a2);
    assert(b1 == b2);
    assert(crate::num::digits_val(a1) == crate::num::digits_val(a2));
    assert(crate::num::digits_val(b1) == crate::num::digits_val(b2));
}

/// The path of the persisted cache store under a home directory.
pub fn get_cache_file(home: &str) -> (r: String)
    ensures
        r@ == home@ + "/.mediainfo/cache/cache.json"@,
{
    let mut out = home.to_owned();
    out.append("/.mediainfo/cache/cache.json");
    out
}

} // verus!
