use vstd::prelude::*;
use vstd::string::StrSliceExecFns;
use crate::replay::LiveRec;

verus! {

/// Character-for-character string comparison.
pub fn str_eq(a: &str, b: &str) -> (r: bool)
    ensures
        r == (a@ == b@),
{
    let na = a.unicode_len();
    let nb = b.unicode_len();
    if na != nb {
        return false;
    }
    let mut i: usize = 0;
    while i < na
        invariant
            i <= na,
            na == a@.len(),
            nb == b@.len(),
            na == nb,
            forall|j: int| 0 <= j < i ==> a@[j] == b@[j],
        decreases na - i,
    {
        if a.get_char(i) != b.get_char(i) {
            return false;
        }
        i = i + 1;
    }
    proof {
        assert(a@ =~= b@);
    }
    true
}

// The in-memory index: a vector of entries with pairwise distinct keys,
// read through a map view.  Rebuilt from the log on open, kept in step with
// it by every write.

/// One index entry: a key and the place of its latest `Put` record.
pub struct IndexEntry {
    pub key: String,
    pub off: usize,
    pub len: usize,
}

/// Keys are pairwise distinct.
pub open spec fn keys_unique(s: Seq<IndexEntry>) -> bool {
    forall|i: int, j: int| 0 <= i < j < s.len() ==> s[i].key@ != s[j].key@
}

/// The map the entries denote: key to (offset, length).
pub open spec fn imap(s: Seq<IndexEntry>) -> Map<Seq<char>, (nat, nat)>
    decreases s.len(),
{
    if s.len() == 0 {
        Map::empty()
    } else {
        imap(s.drop_last()).insert(
            s.last().key@,
            (s.last().off as nat, s.last().len as nat),
        )
    }
}

/// Summed length of the records the entries point at.
pub open spec fn live_len(s: Seq<IndexEntry>) -> nat
    decreases s.len(),
{
    if s.len() == 0 {
        0
    } else {
        live_len(s.drop_last()) + s.last().len as nat
    }
}

/// The entries say just what the replayed index `m` says, place for place.
pub open spec fn matches_replay(s: Seq<IndexEntry>, m: Map<Seq<char>, LiveRec>) -> bool {
    &&& forall|k: Seq<char>| #[trigger] imap(s).contains_key(k) <==> m.contains_key(k)
    &&& forall|k: Seq<char>| #[trigger]
        m.contains_key(k) ==> imap(s)[k] == (m[k].off, m[k].len)
}

/// A key is in the map view exactly when some entry holds it.
pub proof fn lemma_imap_contains(s: Seq<IndexEntry>, k: Seq<char>)
    ensures
        imap(s).contains_key(k) <==> exists|j: int| 0 <= j < s.len() && s[j].key@ == k,
    decreases s.len(),
{
    if s.len() > 0 {
        lemma_imap_contains(s.drop_last(), k);
        if s.last().key@ == k {
            assert(s[s.len() - 1].key@ == k);
        } else if imap(s).contains_key(k) {
            let j = choose|j: int| 0 <= j < s.drop_last().len() && s.drop_last()[j].key@ == k;
            assert(s[j].key@ == k);
        } else {
            assert forall|j: int| 0 <= j < s.len() implies s[j].key@ != k by {
                if j < s.len() - 1 {
                    assert(s.drop_last()[j].key@ == k ==> imap(s.drop_last()).contains_key(k));
                }
            }
        }
    }
}

/// With unique keys, the map view reads the entry that holds the key.
pub proof fn lemma_imap_get(s: Seq<IndexEntry>, j: int)
    requires
        keys_unique(s),
        0 <= j < s.len(),
    ensures
        imap(s).contains_key(s[j].key@),
        imap(s)[s[j].key@] == (s[j].off as nat, s[j].len as nat),
    decreases s.len(),
{
    if j == s.len() - 1 {
    } else {
        assert(keys_unique(s.drop_last()));
        assert(s.drop_last()[j] == s[j]);
        lemma_imap_get(s.drop_last(), j);
        assert(s[j].key@ != s.last().key@);
    }
}

/// Each entry's record is no longer than the lot together.
pub proof fn lemma_live_len_entry(s: Seq<IndexEntry>, j: int)
    requires
        0 <= j < s.len(),
    ensures
        s[j].len <= live_len(s),
    decreases s.len(),
{
    if j < s.len() - 1 {
        assert(s.drop_last()[j] == s[j]);
        lemma_live_len_entry(s.drop_last(), j);
    }
}

/// Appending a fresh entry inserts it into the map view.
pub proof fn lemma_imap_push(s: Seq<IndexEntry>, e: IndexEntry)
    ensures
        imap(s.push(e)) == imap(s).insert(e.key@, (e.off as nat, e.len as nat)),
        live_len(s.push(e)) == live_len(s) + e.len,
{
    assert(s.push(e).drop_last() =~= s);
}

/// Removing the entry at `j` removes its key from the map view and its
/// record length from the total.
pub proof fn lemma_imap_remove(s: Seq<IndexEntry>, j: int)
    requires
        keys_unique(s),
        0 <= j < s.len(),
    ensures
        imap(s.remove(j)) == imap(s).remove(s[j].key@),
        live_len(s.remove(j)) + s[j].len == live_len(s),
        keys_unique(s.remove(j)),
    decreases s.len(),
{
    let r = s.remove(j);
    assert forall|a: int, b: int| 0 <= a < b < r.len() implies r[a].key@ != r[b].key@ by {
        let a2 = if a < j { a } else { a + 1 };
        let b2 = if b < j { b } else { b + 1 };
        assert(r[a] == s[a2] && r[b] == s[b2]);
    }
    if j == s.len() - 1 {
        assert(r =~= s.drop_last());
        lemma_imap_contains(s.drop_last(), s[j].key@);
        assert forall|i: int| 0 <= i < s.drop_last().len() implies s.drop_last()[i].key@
            != s[j].key@ by {
            assert(s.drop_last()[i] == s[i]);
        }
        assert(!imap(s.drop_last()).contains_key(s[j].key@));
        assert(imap(s.drop_last()).insert(
            s.last().key@,
            (s.last().off as nat, s.last().len as nat),
        ).remove(s[j].key@) =~= imap(s.drop_last()));
    } else {
        assert(keys_unique(s.drop_last()));
        assert(s.drop_last()[j] == s[j]);
        lemma_imap_remove(s.drop_last(), j);
        assert(r.drop_last() =~= s.drop_last().remove(j));
        assert(r.last() == s.last());
        assert(s[j].key@ != s.last().key@);
        assert(imap(r) == imap(s.drop_last().remove(j)).insert(
            s.last().key@,
            (s.last().off as nat, s.last().len as nat),
        ));
        assert(imap(s.drop_last()).remove(s[j].key@).insert(
            s.last().key@,
            (s.last().off as nat, s.last().len as nat),
        ) =~= imap(s.drop_last()).insert(
            s.last().key@,
            (s.last().off as nat, s.last().len as nat),
        ).remove(s[j].key@));
    }
}

/// Position of the entry holding `key`, if any.
pub fn find_entry(v: &Vec<IndexEntry>, key: &str) -> (r: Option<usize>)
    ensures
        match r {
            Some(j) => j < v@.len() && v@[j as int].key@ == key@,
            None => forall|j: int| 0 <= j < v@.len() ==> v@[j].key@ != key@,
        },
{
    let n = v.len();
    let mut i: usize = 0;
    while i < n
        invariant
            i <= n,
            n == v@.len(),
            forall|j: int| 0 <= j < i ==> v@[j].key@ != key@,
        decreases n - i,
    {
        if str_eq(v[i].key.as_str(), key) {
            return Some(i);
        }
        i = i + 1;
    }
    None
}

} // verus!
