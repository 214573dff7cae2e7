use vstd::prelude::*;
use vstd::string::{StrSliceExecFns, StringExecFns};
use crate::cmd::{Command, Rec};
use crate::codec::{decode, encode, spec_decode, encode_rec, lemma_decode_encode, lemma_encode_shape};
use crate::error::KvError;
use crate::index::{
    IndexEntry, imap, keys_unique, live_len, matches_replay, find_entry, lemma_imap_contains,
    lemma_imap_get, lemma_imap_push, lemma_imap_remove, lemma_live_len_entry,
};
use crate::replay::{
    LiveRec, replay, replay_from, apply_unit, find_term, terminated, normalize, live_entry_ok,
    lemma_find_term_spec, lemma_find_term_at, lemma_replay_valid, lemma_replay_append,
};

verus! {

/// Log-structured key-value store (Bitcask model).
///
/// The `log` field mirrors the on-disk log file, character for character;
/// reading that file on open and persisting every change is the embedding
/// program's business.  The index is an in-memory cache, rebuilt from the
/// log, that maps each key to the place of its latest `Put` record.
pub struct KvStore {
    log: String,
    index: Vec<IndexEntry>,
    uncompacted: usize,
    threshold: u64,
}

impl KvStore {
    /// The log text.
    pub closed spec fn log_view(self) -> Seq<char> {
        self.log@
    }

    /// The key-value mapping the store denotes: what the log replays to.
    pub closed spec fn kv(self) -> Map<Seq<char>, Seq<char>> {
        replay(self.log@).map_values(|e: LiveRec| e.val)
    }

    /// Stale characters in the log: what compaction would reclaim.
    pub closed spec fn spec_uncompacted(self) -> nat {
        self.uncompacted as nat
    }

    /// The auto-compaction threshold.
    pub closed spec fn spec_threshold(self) -> nat {
        self.threshold as nat
    }

    /// Summed length of the live records.
    pub closed spec fn live_size(self) -> nat {
        live_len(self.index@)
    }

    /// Well-formed: the log is terminated, the index holds exactly what
    /// the log replays to, and stale plus live text accounts for the whole
    /// log.
    pub closed spec fn wf(self) -> bool {
        &&& terminated(self.log@)
        &&& keys_unique(self.index@)
        &&& matches_replay(self.index@, replay(self.log@))
        &&& self.uncompacted + live_len(self.index@) == self.log@.len()
    }
}

/// The live records named by `ks`, encoded one after another.
pub open spec fn concat_recs(ks: Seq<Seq<char>>, m: Map<Seq<char>, Seq<char>>) -> Seq<char>
    decreases ks.len(),
{
    if ks.len() == 0 {
        Seq::<char>::empty()
    } else {
        encode_rec(Rec::Put { key: ks[0], val: m[ks[0]] }) + concat_recs(
            ks.subrange(1, ks.len() as int),
            m,
        )
    }
}

/// The log text is exactly the live records of `m`, one `Put` record per
/// key, in some order: nothing stale, nothing else.
pub open spec fn is_live_concat(log: Seq<char>, m: Map<Seq<char>, Seq<char>>) -> bool {
    exists|ks: Seq<Seq<char>>|
        {
            &&& ks.no_duplicates()
            &&& (forall|k: Seq<char>| #[trigger] ks.contains(k) <==> m.contains_key(k))
            &&& log == concat_recs(ks, m)
        }
}

proof fn lemma_concat_recs_push(ks: Seq<Seq<char>>, m: Map<Seq<char>, Seq<char>>, k: Seq<char>)
    ensures
        concat_recs(ks.push(k), m) == concat_recs(ks, m) + encode_rec(
            Rec::Put { key: k, val: m[k] },
        ),
    decreases ks.len(),
{
    let e = encode_rec(Rec::Put { key: k, val: m[k] });
    if ks.len() == 0 {
        let ks2 = ks.push(k);
        assert(ks2[0] == k);
        assert(ks2.subrange(1, 1) =~= Seq::<Seq<char>>::empty());
        assert(concat_recs(ks2, m) == e + concat_recs(ks2.subrange(1, 1), m));
        assert(concat_recs(ks2.subrange(1, 1), m) == Seq::<char>::empty());
        assert(e + Seq::<char>::empty() =~= e);
        assert(Seq::<char>::empty() + e =~= e);
    } else {
        let t = ks.subrange(1, ks.len() as int);
        assert(ks.push(k).subrange(1, ks.len() as int + 1) =~= t.push(k));
        assert(ks.push(k)[0] == ks[0]);
        lemma_concat_recs_push(t, m, k);
        let h = encode_rec(Rec::Put { key: ks[0], val: m[ks[0]] });
        assert(h + (concat_recs(t, m) + e) =~= (h + concat_recs(t, m)) + e);
    }
}

impl KvStore {
    /// The length of the record `key` currently points at; 0 when the key
    /// is absent.
    pub open spec fn stale_of(self, key: Seq<char>) -> nat {
        if self.kv().contains_key(key) {
            replay(self.log_view())[key].len
        } else {
            0
        }
    }

    /// What a write leaves when no compaction runs: the encoded record
    /// `u` is appended to the log and `stale` characters go stale.
    pub open spec fn appended_post(pre: KvStore, post: KvStore, u: Seq<char>, stale: nat) -> bool {
        &&& post.log_view() == pre.log_view() + u
        &&& post.spec_uncompacted() == pre.spec_uncompacted() + stale
    }

    /// What compaction leaves: no stale text, and a log that is exactly
    /// the live records, one after another.  With `wf`, the log length
    /// then equals the summed length of the live records.
    pub open spec fn compacted_post(post: KvStore) -> bool {
        &&& post.spec_uncompacted() == 0
        &&& is_live_concat(post.log_view(), post.kv())
    }
}

/// Index of the first terminator at or after `from`, if any.
fn find_newline(s: &str, from: usize, n: usize) -> (r: Option<usize>)
    requires
        from <= n,
        n == s@.len(),
    ensures
        match r {
            Some(e) => find_term(s@, from as int) == Some(e as int) && from <= e < n,
            None => find_term(s@, from as int) is None,
        },
{
    let mut i: usize = from;
    while i < n
        invariant
            from <= i <= n,
            n == s@.len(),
            forall|j: int| from <= j < i ==> s@[j] != '\n',
        decreases n - i,
    {
        if s.get_char(i) == '\n' {
            proof {
                lemma_find_term_at(s@, from as int, i as int);
            }
            return Some(i);
        }
        i = i + 1;
    }
    proof {
        lemma_find_term_spec(s@, from as int);
        if find_term(s@, from as int) is Some {
            let e = find_term(s@, from as int)->Some_0;
            assert(s@[e] == '\n');
            assert(false);
        }
    }
    None
}

/// Replay the log, line by line, into a fresh index.  Returns the index
/// and the summed length of the records it points at.
fn rebuild(log: &String) -> (r: (Vec<IndexEntry>, usize))
    requires
        terminated(log@),
    ensures
        keys_unique(r.0@),
        matches_replay(r.0@, replay(log@)),
        live_len(r.0@) == r.1,
        r.1 <= log@.len(),
{
    let n = log.as_str().unicode_len();
    let mut index: Vec<IndexEntry> = Vec::new();
    let mut live: usize = 0;
    let mut pos: usize = 0;
    let ghost mut m: Map<Seq<char>, LiveRec> = Map::empty();
    while pos < n
        invariant
            pos <= n,
            n == log@.len(),
            terminated(log@),
            keys_unique(index@),
            matches_replay(index@, m),
            live == live_len(index@),
            live <= pos,
            replay(log@) == replay_from(log@, pos as int, m),
        decreases n - pos,
    {
        let e = match find_newline(log.as_str(), pos, n) {
            Some(e) => e,
            None => {
                proof {
                    lemma_find_term_spec(log@, pos as int);
                    assert(log@[n - 1] == '\n');
                    assert(false);
                }
                return (index, live);
            },
        };
        let unit = log.as_str().substring_char(pos, e + 1);
        let ghost u = log@.subrange(pos as int, e + 1);
        assert(unit@ == u);
        let ghost m0 = m;
        let ghost ix0 = index@;
        proof {
            m = apply_unit(m, u, pos as int);
        }
        let ulen = e + 1 - pos;
        match decode(unit) {
            Some(cmd) => match cmd {
                Command::Put { key, val } => {
                    assert(m == m0.insert(
                        key@,
                        LiveRec { off: pos as nat, len: ulen as nat, val: val@ },
                    ));
                    match find_entry(&index, key.as_str()) {
                        Some(j) => {
                            proof {
                                lemma_imap_get(index@, j as int);
                                lemma_live_len_entry(index@, j as int);
                                lemma_imap_remove(index@, j as int);
                            }
                            let old_len = index[j].len;
                            live = live - old_len;
                            index.remove(j);
                        },
                        None => {
                            proof {
                                lemma_imap_contains(index@, key@);
                            }
                        },
                    }
                    let ghost ix1 = index@;
                    proof {
                        lemma_imap_push(
                            index@,
                            IndexEntry { key, off: pos, len: ulen },
                        );
                    }
                    assert(live + ulen <= pos + ulen);
                    index.push(IndexEntry { key, off: pos, len: ulen });
                    live = live + ulen;
                    proof {
                        assert(imap(index@) =~= imap(ix0).insert(
                            index@.last().key@,
                            (pos as nat, ulen as nat),
                        ));
                        assert forall|a: int, b: int|
                            0 <= a < b < index@.len() implies index@[a].key@
                            != index@[b].key@ by {
                            if b == index@.len() - 1 {
                                lemma_imap_contains(ix1, index@[b].key@);
                            }
                        }
                        assert forall|k: Seq<char>| #[trigger]
                            imap(index@).contains_key(k) <==> m.contains_key(k) by {}
                    }
                },
                Command::Remove { key } => {
                    assert(m == m0.remove(key@));
                    match find_entry(&index, key.as_str()) {
                        Some(j) => {
                            proof {
                                lemma_imap_get(index@, j as int);
                                lemma_live_len_entry(index@, j as int);
                                lemma_imap_remove(index@, j as int);
                            }
                            let old_len = index[j].len;
                            live = live - old_len;
                            index.remove(j);
                        },
                        None => {
                            proof {
                                lemma_imap_contains(index@, key@);
                                assert(!m0.contains_key(key@));
                                assert(m =~= m0);
                            }
                        },
                    }
                },
            },
            None => {
                assert(m == m0);
            },
        }
        pos = e + 1;
        proof {
            assert(replay_from(log@, pos as int, m) == replay(log@));
        }
    }
    proof {
        assert(replay_from(log@, pos as int, m) == m);
    }
    (index, live)
}

/// The value carried by a well-formed `Put` record occupying exactly
/// the stretch `[off, off+len)` of a log text; `None` when that stretch
/// is out of range or holds anything else.
pub open spec fn record_value_at(log: Seq<char>, off: int, len: int) -> Option<Seq<char>> {
    if 0 <= off && 0 <= len && off + len <= log.len() {
        match spec_decode(log.subrange(off, off + len)) {
            Some(Rec::Put { key, val }) => Some(val),
            _ => None,
        }
    } else {
        None
    }
}

/// Read and decode the record at a given place in a log text.  An indexed
/// record must be a `Put`: a `Remove` there, text that does not decode,
/// or an out-of-range place would mean the index and the log disagree,
/// and is reported as `LogCorruption` at that offset.
pub fn read_record(log: &str, offset: u64, length: u64) -> (r: Result<String, KvError>)
    ensures
        match r {
            Ok(v) => record_value_at(log@, offset as int, length as int) == Some(v@),
            Err(e) => record_value_at(log@, offset as int, length as int) is None && e
                == KvError::LogCorruption(offset),
        },
{
    let n = log.unicode_len();
    if offset > n as u64 || length > n as u64 - offset {
        return Err(KvError::LogCorruption(offset));
    }
    let off = offset as usize;
    let len = length as usize;
    let unit = log.substring_char(off, off + len);
    match decode(unit) {
        Some(cmd) => match cmd {
            Command::Put { key: _, val } => Ok(val),
            Command::Remove { .. } => Err(KvError::LogCorruption(offset)),
        },
        None => Err(KvError::LogCorruption(offset)),
    }
}

impl KvStore {
    /// Open a store over the given log text (the contents of the log
    /// file; empty for a fresh store).  An unterminated final line is
    /// closed with a terminator, and the index is rebuilt by replaying
    /// the log; a line that does not decode is skipped as corruption.
    pub fn open(log: String) -> (s: KvStore)
        ensures
            s.wf(),
            s.log_view() == normalize(log@),
            s.kv() == replay(normalize(log@)).map_values(|e: LiveRec| e.val),
            s.spec_threshold() == 1024 * 1024,
    {
        let ghost orig = log@;
        let mut log = log;
        let n = log.as_str().unicode_len();
        if n > 0 && log.as_str().get_char(n - 1) != '\n' {
            log.push('\n');
        }
        assert(log@ == normalize(orig));
        let r = rebuild(&log);
        let index = r.0;
        let live = r.1;
        let total = log.as_str().unicode_len();
        let uncompacted = total - live;
        KvStore { log, index, uncompacted, threshold: 1024 * 1024 }
    }

    /// The log text the store would have on disk.
    pub fn log_contents(&self) -> (r: &str)
        ensures
            r@ == self.log_view(),
    {
        self.log.as_str()
    }

    /// The stale-character count.
    pub fn uncompacted_len(&self) -> (r: u64)
        ensures
            r == self.spec_uncompacted(),
    {
        self.uncompacted as u64
    }

    /// Look the key up in the index; when present, read the record at its
    /// pointer back from the log and decode it.  On a well-formed store
    /// the decoded record is always the latest `Put` of the key, so the
    /// defensive `LogCorruption` path of `read_record` is unreachable
    /// here.
    pub fn get(&self, key: &str) -> (r: Result<Option<String>, KvError>)
        requires
            self.wf(),
        ensures
            match r {
                Ok(v) => match v {
                    Some(s) => self.kv().contains_key(key@) && s@ == self.kv()[key@],
                    None => !self.kv().contains_key(key@),
                },
                Err(_) => false,
            },
    {
        match find_entry(&self.index, key) {
            Some(j) => {
                let off = self.index[j].off;
                let len = self.index[j].len;
                proof {
                    lemma_imap_get(self.index@, j as int);
                    lemma_replay_valid(self.log@, 0, Map::empty());
                    let m = replay(self.log@);
                    assert(m.contains_key(key@));
                    assert(live_entry_ok(self.log@, key@, m[key@]));
                    assert(m[key@].off == off && m[key@].len == len);
                    lemma_decode_encode(Rec::Put { key: key@, val: m[key@].val });
                }
                match read_record(self.log.as_str(), off as u64, len as u64) {
                    Ok(v) => Ok(Some(v)),
                    Err(e) => Err(e),
                }
            },
            None => {
                proof {
                    lemma_imap_contains(self.index@, key@);
                }
                Ok(None)
            },
        }
    }

    /// A key written to the store must be nonempty.
    fn validate_key(key: &str) -> (r: Result<(), KvError>)
        ensures
            match r {
                Ok(_) => key@.len() > 0,
                Err(e) => e is InvalidKey && key@.len() == 0,
            },
    {
        if key.is_empty() {
            return Err(KvError::InvalidKey(String::from_str("Key cannot be empty")));
        }
        Ok(())
    }

    /// Encode `cmd` and append it to the log as one line; returns the
    /// offset and length of the appended record.
    fn append_command(&mut self, cmd: &Command) -> (r: (usize, usize))
        requires
            terminated(old(self).log@),
        ensures
            final(self).log@ == old(self).log@ + encode_rec(cmd@),
            r.0 == old(self).log@.len(),
            r.1 == encode_rec(cmd@).len(),
            terminated(final(self).log@),
            replay(final(self).log@) == apply_unit(
                replay(old(self).log@),
                encode_rec(cmd@),
                r.0 as int,
            ),
            final(self).index == old(self).index,
            final(self).uncompacted == old(self).uncompacted,
            final(self).threshold == old(self).threshold,
    {
        let off = self.log.as_str().unicode_len();
        let line = encode(cmd);
        let len = line.as_str().unicode_len();
        proof {
            lemma_encode_shape(cmd@);
            lemma_replay_append(self.log@, line@, 0, Map::empty());
        }
        self.log.append(line.as_str());
        (off, len)
    }

    /// Write `key` to `val`.  The key must be nonempty.  The record is
    /// appended to the log, the key's previous record (if any) becomes
    /// stale, the index is pointed at the new record, and compaction runs
    /// if the stale text now exceeds the threshold.
    pub fn set(&mut self, key: String, val: String) -> (r: Result<(), KvError>)
        requires
            old(self).wf(),
        ensures
            final(self).wf(),
            final(self).spec_threshold() == old(self).spec_threshold(),
            match r {
                Err(e) => e is InvalidKey && key@.len() == 0 && *final(self) == *old(self),
                Ok(_) => ({
                    let line = encode_rec(Rec::Put { key: key@, val: val@ });
                    let stale = old(self).stale_of(key@);
                    &&& key@.len() > 0
                    &&& final(self).kv() == old(self).kv().insert(key@, val@)
                    &&& if old(self).spec_uncompacted() + stale > old(self).spec_threshold() {
                        KvStore::compacted_post(*final(self))
                    } else {
                        KvStore::appended_post(*old(self), *final(self), line, stale)
                    }
                }),
            },
    {
        Self::validate_key(key.as_str())?;
        let ghost pre = *old(self);
        let cmd = Command::Put { key: key.clone(), val };
        let rr = self.append_command(&cmd);
        let off = rr.0;
        let ulen = rr.1;
        proof {
            lemma_decode_encode(cmd@);
        }
        let ghost m_new = replay(self.log@);
        let ghost entry_new = LiveRec {
            off: off as nat,
            len: ulen as nat,
            val: cmd@->Put_val,
        };
        assert(m_new == replay(pre.log@).insert(key@, entry_new));
        let total = self.log.as_str().unicode_len();
        match find_entry(&self.index, key.as_str()) {
            Some(j) => {
                proof {
                    lemma_imap_get(self.index@, j as int);
                    lemma_live_len_entry(self.index@, j as int);
                    lemma_imap_remove(self.index@, j as int);
                }
                let old_len = self.index[j].len;
                assert(self.uncompacted + old_len <= total);
                self.uncompacted = self.uncompacted + old_len;
                self.index.remove(j);
            },
            None => {
                proof {
                    lemma_imap_contains(self.index@, key@);
                }
            },
        }
        let ghost ix1 = self.index@;
        assert(!imap(ix1).contains_key(key@)) by {
            lemma_imap_contains(pre.index@, key@);
        }
        self.index.push(IndexEntry { key, off, len: ulen });
        proof {
            let e = self.index@.last();
            assert(self.index@.drop_last() =~= ix1);
            lemma_imap_push(ix1, e);
            assert(self.index@ =~= ix1.push(e));
            lemma_imap_contains(ix1, e.key@);
            assert forall|a: int, b: int|
                0 <= a < b < self.index@.len() implies self.index@[a].key@
                != self.index@[b].key@ by {
                if b == self.index@.len() - 1 {
                    assert(self.index@[a] == ix1[a]);
                }
            }
            assert(imap(self.index@) =~= imap(pre.index@).insert(key@, (off as nat, ulen as nat)));
            assert(matches_replay(self.index@, m_new));
            assert(self.uncompacted + live_len(self.index@) == self.log@.len());
            assert(self.kv() =~= pre.kv().insert(key@, val@));
        }
        self.maybe_compact();
        Ok(())
    }

    /// Remove `key`.  The key must currently exist, else `KeyNotFound`.
    /// A tombstone record is appended; both it and the record it removes
    /// become stale at once, and compaction runs if the stale text now
    /// exceeds the threshold.
    pub fn remove(&mut self, key: String) -> (r: Result<(), KvError>)
        requires
            old(self).wf(),
        ensures
            final(self).wf(),
            final(self).spec_threshold() == old(self).spec_threshold(),
            match r {
                Err(e) => e is KeyNotFound && !old(self).kv().contains_key(key@) && *final(self)
                    == *old(self),
                Ok(_) => ({
                    let line = encode_rec(Rec::Remove { key: key@ });
                    let stale = old(self).stale_of(key@) + line.len();
                    &&& old(self).kv().contains_key(key@)
                    &&& final(self).kv() == old(self).kv().remove(key@)
                    &&& if old(self).spec_uncompacted() + stale > old(self).spec_threshold() {
                        KvStore::compacted_post(*final(self))
                    } else {
                        KvStore::appended_post(*old(self), *final(self), line, stale)
                    }
                }),
            },
    {
        let j = match find_entry(&self.index, key.as_str()) {
            Some(j) => j,
            None => {
                proof {
                    lemma_imap_contains(self.index@, key@);
                }
                return Err(KvError::KeyNotFound);
            },
        };
        let ghost pre = *old(self);
        proof {
            lemma_imap_get(self.index@, j as int);
            lemma_live_len_entry(self.index@, j as int);
        }
        let cmd = Command::Remove { key };
        let rr = self.append_command(&cmd);
        let ulen = rr.1;
        proof {
            lemma_decode_encode(cmd@);
        }
        let ghost m_new = replay(self.log@);
        assert(m_new == replay(pre.log@).remove(cmd@->Remove_key));
        let total = self.log.as_str().unicode_len();
        let old_len = self.index[j].len;
        assert(self.uncompacted + old_len + ulen <= total);
        self.uncompacted = self.uncompacted + old_len + ulen;
        proof {
            lemma_imap_remove(self.index@, j as int);
        }
        self.index.remove(j);
        proof {
            assert(matches_replay(self.index@, m_new));
            assert(self.uncompacted + live_len(self.index@) == self.log@.len());
            assert(self.kv() =~= pre.kv().remove(cmd@->Remove_key));
        }
        self.maybe_compact();
        Ok(())
    }

    /// Run compaction when the stale text exceeds the threshold.
    fn maybe_compact(&mut self)
        requires
            old(self).wf(),
        ensures
            final(self).wf(),
            final(self).kv() == old(self).kv(),
            final(self).spec_threshold() == old(self).spec_threshold(),
            if old(self).spec_uncompacted() > old(self).spec_threshold() {
                KvStore::compacted_post(*final(self))
            } else {
                *final(self) == *old(self)
            },
    {
        if self.uncompacted as u64 > self.threshold {
            self.compact();
        }
    }

    /// Rewrite the log to hold only the records the index points at, in
    /// index order, and point the index at their new places.  Removed
    /// keys and superseded records are not copied; afterwards nothing is
    /// stale.
    fn compact(&mut self)
        requires
            old(self).wf(),
        ensures
            final(self).wf(),
            final(self).kv() == old(self).kv(),
            final(self).spec_threshold() == old(self).spec_threshold(),
            KvStore::compacted_post(*final(self)),
    {
        let ghost m_old = replay(self.log@);
        let ghost kv_old = self.kv();
        proof {
            lemma_replay_valid(self.log@, 0, Map::empty());
        }
        let n = self.index.len();
        let log_len = self.log.as_str().unicode_len();
        let mut new_log = String::new();
        let mut new_index: Vec<IndexEntry> = Vec::new();
        let ghost mut m2 = Map::<Seq<char>, LiveRec>::empty();
        let ghost mut ks = Seq::<Seq<char>>::empty();
        let mut i: usize = 0;
        while i < n
            invariant
                i <= n,
                n == self.index@.len(),
                log_len == self.log@.len(),
                self.wf(),
                m_old == replay(self.log@),
                kv_old == self.kv(),
                forall|k: Seq<char>| #[trigger]
                    m_old.contains_key(k) ==> live_entry_ok(self.log@, k, m_old[k]),
                keys_unique(new_index@),
                new_index@.len() == i,
                forall|j: int| 0 <= j < i ==> new_index@[j].key@ == self.index@[j].key@,
                matches_replay(new_index@, m2),
                replay(new_log@) == m2,
                terminated(new_log@),
                live_len(new_index@) == new_log@.len(),
                forall|k: Seq<char>| #[trigger]
                    m2.contains_key(k) ==> m_old.contains_key(k) && m2[k].val == m_old[k].val,
                ks.len() == i,
                forall|j: int| 0 <= j < i ==> ks[j] == self.index@[j].key@,
                new_log@ == concat_recs(ks, kv_old),
            decreases n - i,
        {
            let off = self.index[i].off;
            let len = self.index[i].len;
            let ghost k = self.index@[i as int].key@;
            proof {
                lemma_imap_get(self.index@, i as int);
                assert(m_old.contains_key(k));
                assert(m_old[k].off == off && m_old[k].len == len);
                assert(live_entry_ok(self.log@, k, m_old[k]));
            }
            assert(off + len <= log_len);
            let chunk = self.log.as_str().substring_char(off, off + len);
            let new_off = new_log.as_str().unicode_len();
            let ghost v = m_old[k].val;
            proof {
                assert(chunk@ == encode_rec(Rec::Put { key: k, val: v }));
                lemma_encode_shape(Rec::Put { key: k, val: v });
                lemma_replay_append(new_log@, chunk@, 0, Map::empty());
                lemma_decode_encode(Rec::Put { key: k, val: v });
                assert(kv_old.contains_key(k) && kv_old[k] == v);
                lemma_concat_recs_push(ks, kv_old, k);
            }
            new_log.append(chunk);
            let entry_key = self.index[i].key.clone();
            let ghost ix1 = new_index@;
            new_index.push(IndexEntry { key: entry_key, off: new_off, len });
            proof {
                let e = new_index@.last();
                assert(new_index@.drop_last() =~= ix1);
                lemma_imap_push(ix1, e);
                assert(new_index@ =~= ix1.push(e));
                assert forall|a: int, b: int|
                    0 <= a < b < new_index@.len() implies new_index@[a].key@
                    != new_index@[b].key@ by {
                    if b == new_index@.len() - 1 {
                        assert(new_index@[a].key@ == self.index@[a].key@);
                        assert(new_index@[b].key@ == self.index@[b as int].key@);
                    }
                }
                m2 = m2.insert(k, LiveRec { off: new_off as nat, len: len as nat, val: v });
                ks = ks.push(k);
                assert(matches_replay(new_index@, m2));
                assert(replay(new_log@) == m2);
            }
            i = i + 1;
        }
        proof {
            assert forall|k: Seq<char>| #[trigger] m_old.contains_key(k) implies m2.contains_key(
                k,
            ) by {
                lemma_imap_contains(self.index@, k);
                let j = choose|j: int| 0 <= j < self.index@.len() && self.index@[j].key@ == k;
                assert(new_index@[j].key@ == k);
                lemma_imap_contains(new_index@, k);
            }
        }
        self.log = new_log;
        self.index = new_index;
        self.uncompacted = 0;
        proof {
            assert(self.kv() =~= kv_old);
            assert forall|a: int, b: int| 0 <= a < b < ks.len() implies ks[a] != ks[b] by {}
            assert forall|k: Seq<char>| #[trigger] ks.contains(k) <==> kv_old.contains_key(
                k,
            ) by {
                if kv_old.contains_key(k) {
                    lemma_imap_contains(old(self).index@, k);
                    let j = choose|j: int|
                        0 <= j < old(self).index@.len() && old(self).index@[j].key@ == k;
                    assert(ks[j] == k);
                } else if ks.contains(k) {
                    let j = choose|j: int| 0 <= j < ks.len() && ks[j] == k;
                    assert(old(self).index@[j].key@ == k);
                    lemma_imap_contains(old(self).index@, k);
                }
            }
            assert(is_live_concat(self.log@, self.kv())) by {
                assert({
                    &&& ks.no_duplicates()
                    &&& (forall|k: Seq<char>| #[trigger] ks.contains(k) <==> self.kv()
                        .contains_key(k))
                    &&& self.log@ == concat_recs(ks, self.kv())
                });
            }
        }
    }

    /// Set the byte budget of stale records beyond which a write triggers
    /// compaction.
    pub fn set_compaction_threshold(&mut self, threshold: u64)
        ensures
            final(self).spec_threshold() == threshold,
            final(self).wf() == old(self).wf(),
            final(self).kv() == old(self).kv(),
            final(self).log_view() == old(self).log_view(),
            final(self).spec_uncompacted() == old(self).spec_uncompacted(),
            final(self).live_size() == old(self).live_size(),
    {
        self.threshold = threshold;
    }
}

/// A `set` makes the key map to the value it wrote: a `get` of `k`
/// afterwards is owed `Some(v)` by `get`'s contract.
pub proof fn lemma_set_then_get(s0: KvStore, s1: KvStore, k: Seq<char>, v: Seq<char>)
    requires
        s1.kv() == s0.kv().insert(k, v),
    ensures
        s1.kv().contains_key(k),
        s1.kv()[k] == v,
{
}

/// A `remove` after a `set` of `k` leaves the key unmapped: a `get`
/// afterwards is owed `None`, and a second `remove` is owed
/// `KeyNotFound`, by their contracts.
pub proof fn lemma_remove_then_gone(
    s0: KvStore,
    s1: KvStore,
    s2: KvStore,
    k: Seq<char>,
    v: Seq<char>,
)
    requires
        s1.kv() == s0.kv().insert(k, v),
        s2.kv() == s1.kv().remove(k),
    ensures
        s1.kv().contains_key(k),
        !s2.kv().contains_key(k),
{
}

/// Durability: the mapping of a well-formed store is exactly what
/// reopening it over its own log text rebuilds, so closing and reopening
/// at the same directory loses nothing.
pub proof fn lemma_reopen_rebuilds(s: KvStore)
    requires
        s.wf(),
    ensures
        replay(normalize(s.log_view())).map_values(|e: LiveRec| e.val) == s.kv(),
{
    assert(normalize(s.log_view()) == s.log_view());
}

/// Overwriting: after a second `set` of the same key (no compaction
/// running) the mapping holds the second value, and the stale count grew
/// by exactly the length of the superseded record.
pub proof fn lemma_overwrite_accounting(
    s0: KvStore,
    s1: KvStore,
    s2: KvStore,
    k: Seq<char>,
    v1: Seq<char>,
    v2: Seq<char>,
)
    requires
        s0.wf(),
        s1.kv() == s0.kv().insert(k, v1),
        KvStore::appended_post(s0, s1, encode_rec(Rec::Put { key: k, val: v1 }), s0.stale_of(k)),
        s2.kv() == s1.kv().insert(k, v2),
        KvStore::appended_post(s1, s2, encode_rec(Rec::Put { key: k, val: v2 }), s1.stale_of(k)),
    ensures
        s2.kv()[k] == v2,
        s2.spec_uncompacted() == s1.spec_uncompacted() + encode_rec(
            Rec::Put { key: k, val: v1 },
        ).len(),
{
    let u1 = encode_rec(Rec::Put { key: k, val: v1 });
    lemma_encode_shape(Rec::Put { key: k, val: v1 });
    lemma_replay_append(s0.log_view(), u1, 0, Map::empty());
    lemma_decode_encode(Rec::Put { key: k, val: v1 });
    assert(replay(s1.log_view()) == replay(s0.log_view()).insert(
        k,
        LiveRec { off: s0.log_view().len(), len: u1.len(), val: v1 },
    ));
    assert(s1.stale_of(k) == u1.len());
}

/// Space accounting: stale plus live text accounts for the whole log; in
/// particular, right after compaction (nothing stale) the log is exactly
/// as long as the live records together.
pub proof fn lemma_space_accounting(s: KvStore)
    requires
        s.wf(),
    ensures
        s.spec_uncompacted() + s.live_size() == s.log_view().len(),
        s.spec_uncompacted() == 0 ==> s.log_view().len() == s.live_size(),
{
}

} // verus!
