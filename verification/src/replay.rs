use vstd::prelude::*;
use crate::cmd::Rec;
use crate::codec::{
    spec_decode, find_char, encode_rec, lemma_find_char_spec, lemma_find_char_at,
    lemma_decode_canonical,
};

verus! {

// The log is the sole source of truth: the index is what one obtains by
// replaying it from the start, line by line.  `replay` makes that precise at
// the specification level; the engine's invariant ties the executable index
// to it.

/// A live record: where it lies in the log, and the value it carries.
pub struct LiveRec {
    pub off: nat,
    pub len: nat,
    pub val: Seq<char>,
}

/// Index of the first terminator at or after `pos`, if any.
pub open spec fn find_term(log: Seq<char>, pos: int) -> Option<int> {
    match find_char(log.subrange(pos, log.len() as int), '\n') {
        Some(i) => Some(pos + i),
        None => None,
    }
}

/// What one decoded line does to the index, the line sitting at `off`.
/// A line that does not decode is corruption: it is skipped.
pub open spec fn apply_unit(
    m: Map<Seq<char>, LiveRec>,
    u: Seq<char>,
    off: int,
) -> Map<Seq<char>, LiveRec> {
    match spec_decode(u) {
        Some(Rec::Put { key, val }) => m.insert(
            key,
            LiveRec { off: off as nat, len: u.len(), val },
        ),
        Some(Rec::Remove { key }) => m.remove(key),
        None => m,
    }
}

/// Replay the log from `pos` on, starting from the index `acc` built so
/// far.  An unterminated tail is treated as corruption and skipped.
pub open spec fn replay_from(
    log: Seq<char>,
    pos: int,
    acc: Map<Seq<char>, LiveRec>,
) -> Map<Seq<char>, LiveRec>
    decreases log.len() - pos,
    via replay_from_decreases
{
    if pos < 0 || pos >= log.len() {
        acc
    } else {
        match find_term(log, pos) {
            None => acc,
            Some(e) => replay_from(log, e + 1, apply_unit(acc, log.subrange(pos, e + 1), pos)),
        }
    }
}

#[via_fn]
proof fn replay_from_decreases(log: Seq<char>, pos: int, acc: Map<Seq<char>, LiveRec>) {
    if 0 <= pos < log.len() {
        lemma_find_char_spec(log.subrange(pos, log.len() as int), '\n');
    }
}

/// The index the whole log replays to.
pub open spec fn replay(log: Seq<char>) -> Map<Seq<char>, LiveRec> {
    replay_from(log, 0, Map::empty())
}

/// A log is terminated when it is empty or ends with the terminator.
pub open spec fn terminated(log: Seq<char>) -> bool {
    log.len() == 0 || log[log.len() - 1] == '\n'
}

/// `open` accepts any log text; an unterminated one gets a final
/// terminator so that later appends start on a fresh line.
pub open spec fn normalize(log: Seq<char>) -> Seq<char> {
    if terminated(log) {
        log
    } else {
        log.push('\n')
    }
}

/// One line: nonempty, and its only terminator is its last character.
pub open spec fn single_unit(u: Seq<char>) -> bool {
    &&& u.len() >= 1
    &&& u[u.len() - 1] == '\n'
    &&& forall|j: int| 0 <= j < u.len() - 1 ==> u[j] != '\n'
}

/// The entry for `k` points at a stretch of the log holding exactly the
/// encoding of a `Put` of `k` with the entry's value.
pub open spec fn live_entry_ok(log: Seq<char>, k: Seq<char>, e: LiveRec) -> bool {
    &&& e.off + e.len <= log.len()
    &&& log.subrange(e.off as int, e.off + e.len as int) == encode_rec(Rec::Put { key: k, val: e.val })
}

/// What `find_term` returns is the first terminator at or after `pos`.
pub proof fn lemma_find_term_spec(log: Seq<char>, pos: int)
    requires
        0 <= pos <= log.len(),
    ensures
        match find_term(log, pos) {
            Some(e) => pos <= e < log.len() && log[e] == '\n' && forall|j: int|
                pos <= j < e ==> log[j] != '\n',
            None => forall|j: int| pos <= j < log.len() ==> log[j] != '\n',
        },
{
    let t = log.subrange(pos, log.len() as int);
    lemma_find_char_spec(t, '\n');
    match find_char(t, '\n') {
        Some(i) => {
            assert(log[pos + i] == t[i]);
            assert(forall|j: int| pos <= j < pos + i ==> log[j] == t[j - pos]);
        },
        None => {
            assert(forall|j: int| pos <= j < log.len() ==> log[j] == t[j - pos]);
        },
    }
}

/// A terminator with none before it (from `pos` on) is what `find_term`
/// returns.
pub proof fn lemma_find_term_at(log: Seq<char>, pos: int, e: int)
    requires
        0 <= pos <= e < log.len(),
        log[e] == '\n',
        forall|j: int| pos <= j < e ==> log[j] != '\n',
    ensures
        find_term(log, pos) == Some(e),
{
    let t = log.subrange(pos, log.len() as int);
    assert(t[e - pos] == '\n');
    assert(forall|j: int| 0 <= j < e - pos ==> t[j] == log[j + pos] && t[j] != '\n');
    lemma_find_char_at(t, '\n', e - pos);
}

/// Appending one line to a terminated log replays to one more step.
pub proof fn lemma_replay_append(
    log: Seq<char>,
    u: Seq<char>,
    pos: int,
    acc: Map<Seq<char>, LiveRec>,
)
    requires
        terminated(log),
        single_unit(u),
        0 <= pos <= log.len(),
    ensures
        replay_from(log + u, pos, acc) == apply_unit(
            replay_from(log, pos, acc),
            u,
            log.len() as int,
        ),
    decreases log.len() - pos,
{
    let both = log + u;
    if pos == log.len() {
        assert(replay_from(log, pos, acc) == acc);
        let e = log.len() + u.len() - 1;
        assert(both[e] == u[u.len() - 1]);
        assert(forall|j: int| pos <= j < e ==> both[j] == u[j - log.len()] && both[j] != '\n');
        lemma_find_term_at(both, pos, e);
        assert(both.subrange(pos, e + 1) =~= u);
        assert(replay_from(both, e + 1, apply_unit(acc, u, pos)) == apply_unit(acc, u, pos));
    } else {
        assert(log.len() > 0);
        lemma_find_term_spec(log, pos);
        match find_term(log, pos) {
            None => {
                assert(log[log.len() - 1] != '\n');
                assert(false);
            },
            Some(e) => {
                assert(forall|j: int| pos <= j < e ==> both[j] == log[j] && both[j] != '\n');
                assert(both[e] == log[e]);
                lemma_find_term_at(both, pos, e);
                assert(both.subrange(pos, e + 1) =~= log.subrange(pos, e + 1));
                let acc2 = apply_unit(acc, log.subrange(pos, e + 1), pos);
                lemma_replay_append(log, u, e + 1, acc2);
            },
        }
    }
}

/// Every entry replay builds points at the canonical encoding of a `Put`
/// of its key, holding its value, within bounds.
pub proof fn lemma_replay_valid(log: Seq<char>, pos: int, acc: Map<Seq<char>, LiveRec>)
    requires
        0 <= pos,
        forall|k: Seq<char>| #[trigger] acc.contains_key(k) ==> live_entry_ok(log, k, acc[k]),
    ensures
        forall|k: Seq<char>| #[trigger]
            replay_from(log, pos, acc).contains_key(k) ==> live_entry_ok(
                log,
                k,
                replay_from(log, pos, acc)[k],
            ),
    decreases log.len() - pos,
{
    if pos < log.len() {
        match find_term(log, pos) {
            None => {},
            Some(e) => {
                lemma_find_term_spec(log, pos);
                let u = log.subrange(pos, e + 1);
                let acc2 = apply_unit(acc, u, pos);
                match spec_decode(u) {
                    Some(Rec::Put { key, val }) => {
                        lemma_decode_canonical(u);
                        assert(live_entry_ok(log, key, acc2[key]));
                    },
                    _ => {},
                }
                assert forall|k: Seq<char>| #[trigger] acc2.contains_key(k) implies live_entry_ok(
                    log,
                    k,
                    acc2[k],
                ) by {
                    match spec_decode(u) {
                        Some(Rec::Put { key, val }) => {
                            if k != key {
                                assert(acc.contains_key(k));
                            }
                        },
                        _ => {
                            assert(acc.contains_key(k));
                        },
                    }
                }
                lemma_replay_valid(log, e + 1, acc2);
                assert(replay_from(log, pos, acc) == replay_from(log, e + 1, acc2));
            },
        }
    }
}

} // verus!
