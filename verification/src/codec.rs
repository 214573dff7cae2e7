use vstd::prelude::*;
use vstd::string::StrSliceExecFns;
use crate::cmd::{Command, Rec};

verus! {

/// Relies on `String::push` of std: it appends the given character to the
/// end of the string.  vstd specifies most other `String` operations but
/// not this one.
pub assume_specification[ String::push ](s: &mut String, ch: char)
    ensures
        final(s)@ == old(s)@.push(ch),
;

// A record is stored as one line of text, terminated by a newline:
//
//   Put    { key, val }   ->   'S' esc(key) ',' esc(val) '\n'
//   Remove { key }        ->   'R' esc(key) '\n'
//
// `esc` escapes the backslash, the newline and the comma, so the body of a
// line contains neither the line terminator nor the key/value separator.
// Decoding accepts exactly the canonical encodings: `spec_decode(u)` is
// `Some(r)` if and only if `u == encode_rec(r)`.

/// The escape sequence a single character encodes to.
pub open spec fn esc_char(c: char) -> Seq<char> {
    if c == '\\' {
        seq!['\\', '\\']
    } else if c == '\n' {
        seq!['\\', 'n']
    } else if c == ',' {
        seq!['\\', 'c']
    } else {
        seq![c]
    }
}

/// Escape a whole string.
pub open spec fn esc(s: Seq<char>) -> Seq<char>
    decreases s.len(),
{
    if s.len() == 0 {
        Seq::<char>::empty()
    } else {
        esc_char(s[0]) + esc(s.subrange(1, s.len() as int))
    }
}

/// Undo `esc`; `None` when `s` is not a well-formed escaped string
/// (a lone or unknown escape, or an unescaped newline or comma).
pub open spec fn unesc(s: Seq<char>) -> Option<Seq<char>>
    decreases s.len(),
{
    if s.len() == 0 {
        Some(Seq::<char>::empty())
    } else if s[0] == '\\' {
        if s.len() >= 2 {
            let m = if s[1] == '\\' {
                Some('\\')
            } else if s[1] == 'n' {
                Some('\n')
            } else if s[1] == 'c' {
                Some(',')
            } else {
                None
            };
            match m {
                Some(ch) => match unesc(s.subrange(2, s.len() as int)) {
                    Some(t) => Some(seq![ch] + t),
                    None => None,
                },
                None => None,
            }
        } else {
            None
        }
    } else if s[0] == '\n' || s[0] == ',' {
        None
    } else {
        match unesc(s.subrange(1, s.len() as int)) {
            Some(t) => Some(seq![s[0]] + t),
            None => None,
        }
    }
}

/// Index of the first occurrence of `c` in `s`, if any.
pub open spec fn find_char(s: Seq<char>, c: char) -> Option<int>
    decreases s.len(),
{
    if s.len() == 0 {
        None
    } else if s[0] == c {
        Some(0)
    } else {
        match find_char(s.subrange(1, s.len() as int), c) {
            Some(i) => Some(i + 1),
            None => None,
        }
    }
}

/// The one line of text a record encodes to.
pub open spec fn encode_rec(r: Rec) -> Seq<char> {
    match r {
        Rec::Put { key, val } => seq!['S'] + esc(key) + seq![','] + esc(val) + seq!['\n'],
        Rec::Remove { key } => seq!['R'] + esc(key) + seq!['\n'],
    }
}

/// Decode one line of text; strict: only canonical encodings are accepted.
pub open spec fn spec_decode(u: Seq<char>) -> Option<Rec> {
    if u.len() < 2 || u[u.len() - 1] != '\n' {
        None
    } else {
        let body = u.subrange(1, u.len() - 1);
        if u[0] == 'S' {
            match find_char(body, ',') {
                Some(i) => match (unesc(body.subrange(0, i)), unesc(
                    body.subrange(i + 1, body.len() as int),
                )) {
                    (Some(k), Some(v)) => Some(Rec::Put { key: k, val: v }),
                    _ => None,
                },
                None => None,
            }
        } else if u[0] == 'R' {
            match unesc(body) {
                Some(k) => Some(Rec::Remove { key: k }),
                None => None,
            }
        } else {
            None
        }
    }
}

/// An escaped string contains neither the terminator nor the separator.
pub proof fn lemma_esc_no_special(s: Seq<char>)
    ensures
        forall|i: int| 0 <= i < esc(s).len() ==> esc(s)[i] != '\n' && esc(s)[i] != ',',
    decreases s.len(),
{
    if s.len() > 0 {
        let t = s.subrange(1, s.len() as int);
        lemma_esc_no_special(t);
        let ec = esc_char(s[0]);
        assert forall|i: int| 0 <= i < esc(s).len() implies esc(s)[i] != '\n' && esc(s)[i]
            != ',' by {
            if i < ec.len() {
                assert(esc(s)[i] == ec[i]);
            } else {
                assert(esc(s)[i] == esc(t)[i - ec.len()]);
            }
        }
    }
}

/// Escaping distributes over concatenation.
pub proof fn lemma_esc_concat(a: Seq<char>, b: Seq<char>)
    ensures
        esc(a + b) == esc(a) + esc(b),
    decreases a.len(),
{
    if a.len() == 0 {
        assert(a + b =~= b);
        assert(esc(a) + esc(b) =~= esc(b));
    } else {
        let t = a.subrange(1, a.len() as int);
        assert((a + b).subrange(1, (a + b).len() as int) =~= t + b);
        lemma_esc_concat(t, b);
        assert(esc_char(a[0]) + (esc(t) + esc(b)) =~= (esc_char(a[0]) + esc(t)) + esc(b));
    }
}

/// `unesc` undoes `esc`.
pub proof fn lemma_unesc_esc(s: Seq<char>)
    ensures
        unesc(esc(s)) == Some(s),
    decreases s.len(),
{
    if s.len() == 0 {
    } else {
        let t = s.subrange(1, s.len() as int);
        lemma_unesc_esc(t);
        let e = esc(s);
        let ec = esc_char(s[0]);
        assert(e == ec + esc(t));
        if s[0] == '\\' || s[0] == '\n' || s[0] == ',' {
            assert(ec.len() == 2);
            assert(e[0] == '\\');
            assert(e.len() >= 2);
            assert(e.subrange(2, e.len() as int) =~= esc(t));
            assert(unesc(e) == Some(seq![s[0]] + t));
            assert(seq![s[0]] + t =~= s);
        } else {
            assert(ec.len() == 1);
            assert(e[0] == s[0]);
            assert(e.subrange(1, e.len() as int) =~= esc(t));
            assert(unesc(e) == Some(seq![s[0]] + t));
            assert(seq![s[0]] + t =~= s);
        }
    }
}

/// Escaping is the only way to produce a string `unesc` accepts.
pub proof fn lemma_esc_unesc(u: Seq<char>)
    requires
        unesc(u) is Some,
    ensures
        esc(unesc(u)->Some_0) == u,
    decreases u.len(),
{
    if u.len() == 0 {
        assert(esc(Seq::<char>::empty()) =~= u);
    } else if u[0] == '\\' {
        let rest = u.subrange(2, u.len() as int);
        lemma_esc_unesc(rest);
        let ch = if u[1] == '\\' {
            '\\'
        } else if u[1] == 'n' {
            '\n'
        } else {
            ','
        };
        let t = unesc(rest)->Some_0;
        let s = seq![ch] + t;
        assert(unesc(u)->Some_0 == s);
        assert(s[0] == ch);
        assert(s.subrange(1, s.len() as int) =~= t);
        assert(esc(s) == esc_char(ch) + esc(t));
        assert(esc_char(ch) =~= u.subrange(0, 2));
        assert(esc_char(ch) + rest =~= u);
    } else {
        let rest = u.subrange(1, u.len() as int);
        lemma_esc_unesc(rest);
        let t = unesc(rest)->Some_0;
        let s = seq![u[0]] + t;
        assert(unesc(u)->Some_0 == s);
        assert(s[0] == u[0]);
        assert(s.subrange(1, s.len() as int) =~= t);
        assert(esc(s) == esc_char(u[0]) + esc(t));
        assert(esc_char(u[0]) =~= u.subrange(0, 1));
        assert(esc_char(u[0]) + rest =~= u);
    }
}

/// What `find_char` returns is the first occurrence.
pub proof fn lemma_find_char_spec(s: Seq<char>, c: char)
    ensures
        match find_char(s, c) {
            Some(i) => 0 <= i < s.len() && s[i] == c && forall|j: int| 0 <= j < i ==> s[j] != c,
            None => forall|j: int| 0 <= j < s.len() ==> s[j] != c,
        },
    decreases s.len(),
{
    if s.len() > 0 && s[0] != c {
        let t = s.subrange(1, s.len() as int);
        lemma_find_char_spec(t, c);
        match find_char(t, c) {
            Some(i) => {
                assert(s[i + 1] == t[i]);
                assert forall|j: int| 0 <= j < i + 1 implies s[j] != c by {
                    if j > 0 {
                        assert(s[j] == t[j - 1]);
                    }
                }
            },
            None => {
                assert forall|j: int| 0 <= j < s.len() implies s[j] != c by {
                    if j > 0 {
                        assert(s[j] == t[j - 1]);
                    }
                }
            },
        }
    }
}

/// A position that is an occurrence with none before it is what
/// `find_char` returns.
pub proof fn lemma_find_char_at(s: Seq<char>, c: char, i: int)
    requires
        0 <= i < s.len(),
        s[i] == c,
        forall|j: int| 0 <= j < i ==> s[j] != c,
    ensures
        find_char(s, c) == Some(i),
{
    lemma_find_char_spec(s, c);
    match find_char(s, c) {
        Some(k) => {
            if k < i {
                assert(s[k] == c);
            } else if k > i {
                assert(s[i] != c);
            }
        },
        None => {
            assert(s[i] != c);
        },
    }
}

/// Decoding undoes encoding.
pub proof fn lemma_decode_encode(r: Rec)
    ensures
        spec_decode(encode_rec(r)) == Some(r),
{
    let u = encode_rec(r);
    match r {
        Rec::Put { key, val } => {
            let ek = esc(key);
            let ev = esc(val);
            lemma_esc_no_special(key);
            lemma_esc_no_special(val);
            assert(u.len() == 3 + ek.len() + ev.len());
            assert(u[u.len() - 1] == '\n');
            assert(u[0] == 'S');
            let body = u.subrange(1, u.len() - 1);
            assert(body =~= ek + seq![','] + ev);
            let i = ek.len() as int;
            assert(body[i] == ',');
            assert(forall|j: int| 0 <= j < i ==> body[j] == ek[j] && body[j] != ',');
            lemma_find_char_at(body, ',', i);
            assert(body.subrange(0, i) =~= ek);
            assert(body.subrange(i + 1, body.len() as int) =~= ev);
            lemma_unesc_esc(key);
            lemma_unesc_esc(val);
        },
        Rec::Remove { key } => {
            let ek = esc(key);
            lemma_esc_no_special(key);
            assert(u.len() == 2 + ek.len());
            assert(u[u.len() - 1] == '\n');
            assert(u[0] == 'R');
            assert(u[0] != 'S');
            let body = u.subrange(1, u.len() - 1);
            assert(body =~= ek);
            lemma_unesc_esc(key);
        },
    }
}

/// Decoding is strict: a line that decodes is the canonical encoding of
/// what it decodes to.
pub proof fn lemma_decode_canonical(u: Seq<char>)
    requires
        spec_decode(u) is Some,
    ensures
        encode_rec(spec_decode(u)->Some_0) == u,
{
    let body = u.subrange(1, u.len() - 1);
    if u[0] == 'S' {
        let i = find_char(body, ',')->Some_0;
        lemma_find_char_spec(body, ',');
        let bk = body.subrange(0, i);
        let bv = body.subrange(i + 1, body.len() as int);
        lemma_esc_unesc(bk);
        lemma_esc_unesc(bv);
        let k = unesc(bk)->Some_0;
        let v = unesc(bv)->Some_0;
        assert(spec_decode(u)->Some_0 == Rec::Put { key: k, val: v });
        assert(encode_rec(Rec::Put { key: k, val: v }) == seq!['S'] + bk + seq![','] + bv
            + seq!['\n']);
        assert(body[i] == ',');
        assert(seq!['S'] + bk + seq![','] + bv + seq!['\n'] =~= u);
    } else {
        lemma_esc_unesc(body);
        let k = unesc(body)->Some_0;
        assert(spec_decode(u)->Some_0 == Rec::Remove { key: k });
        assert(encode_rec(Rec::Remove { key: k }) == seq!['R'] + body + seq!['\n']);
        assert(seq!['R'] + body + seq!['\n'] =~= u);
    }
}

/// The shape of an encoded record: a nonempty line whose only newline is
/// the final terminator.
pub proof fn lemma_encode_shape(r: Rec)
    ensures
        encode_rec(r).len() >= 2,
        encode_rec(r)[encode_rec(r).len() - 1] == '\n',
        forall|j: int|
            0 <= j < encode_rec(r).len() - 1 ==> encode_rec(r)[j] != '\n',
{
    match r {
        Rec::Put { key, val } => {
            lemma_esc_no_special(key);
            lemma_esc_no_special(val);
        },
        Rec::Remove { key } => {
            lemma_esc_no_special(key);
        },
    }
}

proof fn lemma_esc_singleton(c: char)
    ensures
        esc(seq![c]) == esc_char(c),
{
    let s = seq![c];
    assert(s.subrange(1, 1) =~= Seq::<char>::empty());
    assert(esc(Seq::<char>::empty()) == Seq::<char>::empty());
    assert(esc(s) =~= esc_char(c));
}

/// Append the escaped form of `s` to `out`.
fn push_escaped(out: &mut String, s: &str)
    ensures
        final(out)@ == old(out)@ + esc(s@),
{
    let n = s.unicode_len();
    let mut i: usize = 0;
    while i < n
        invariant
            i <= n,
            n == s@.len(),
            out@ == old(out)@ + esc(s@.subrange(0, i as int)),
        decreases n - i,
    {
        let c = s.get_char(i);
        let ghost pre = out@;
        if c == '\\' {
            out.push('\\');
            out.push('\\');
        } else if c == '\n' {
            out.push('\\');
            out.push('n');
        } else if c == ',' {
            out.push('\\');
            out.push('c');
        } else {
            out.push(c);
        }
        proof {
            assert(out@ =~= pre + esc_char(s@[i as int]));
            let a = s@.subrange(0, i as int);
            let b = s@.subrange(i as int, i + 1 as int);
            lemma_esc_concat(a, b);
            assert(b =~= seq![s@[i as int]]);
            lemma_esc_singleton(s@[i as int]);
            assert(a + b =~= s@.subrange(0, i + 1 as int));
            assert(out@ =~= old(out)@ + esc(s@.subrange(0, i + 1 as int)));
        }
        i = i + 1;
    }
    proof {
        assert(s@.subrange(0, n as int) =~= s@);
    }
}

/// Encode a command as one terminated line of text.
pub fn encode(cmd: &Command) -> (r: String)
    ensures
        r@ == encode_rec(cmd@),
{
    let mut out = String::new();
    match cmd {
        Command::Put { key, val } => {
            out.push('S');
            push_escaped(&mut out, key.as_str());
            out.push(',');
            push_escaped(&mut out, val.as_str());
            out.push('\n');
            proof {
                assert(out@ =~= encode_rec(cmd@));
            }
        },
        Command::Remove { key } => {
            out.push('R');
            push_escaped(&mut out, key.as_str());
            out.push('\n');
            proof {
                assert(out@ =~= encode_rec(cmd@));
            }
        },
    }
    out
}

/// Undo the escaping of `push_escaped`; `None` on a malformed input.
fn unescape(s: &str) -> (r: Option<String>)
    ensures
        match r {
            Some(t) => unesc(s@) == Some(t@),
            None => unesc(s@) is None,
        },
{
    let n = s.unicode_len();
    let mut out = String::new();
    let mut i: usize = 0;
    proof {
        assert(s@.subrange(0, n as int) =~= s@);
        match unesc(s@) {
            Some(t) => {
                assert(Seq::<char>::empty() + t =~= t);
            },
            None => {},
        }
    }
    while i < n
        invariant
            i <= n,
            n == s@.len(),
            match unesc(s@.subrange(i as int, n as int)) {
                Some(t) => unesc(s@) == Some(out@ + t),
                None => unesc(s@) is None,
            },
        decreases n - i,
    {
        let ghost rest = s@.subrange(i as int, n as int);
        let ghost pre = out@;
        let c = s.get_char(i);
        assert(rest[0] == c);
        if c == '\\' {
            if i + 1 >= n {
                assert(rest.len() == 1);
                return None;
            }
            let d = s.get_char(i + 1);
            assert(rest[1] == d);
            if d == '\\' {
                out.push('\\');
            } else if d == 'n' {
                out.push('\n');
            } else if d == 'c' {
                out.push(',');
            } else {
                return None;
            }
            proof {
                let ch = if d == '\\' {
                    '\\'
                } else if d == 'n' {
                    '\n'
                } else {
                    ','
                };
                assert(out@ == pre.push(ch));
                let rest2 = s@.subrange(i + 2 as int, n as int);
                assert(rest.subrange(2, rest.len() as int) =~= rest2);
                match unesc(rest2) {
                    Some(t) => {
                        assert(unesc(rest) == Some(seq![ch] + t));
                        assert(pre + (seq![ch] + t) =~= out@ + t);
                    },
                    None => {},
                }
            }
            i = i + 2;
        } else if c == '\n' || c == ',' {
            return None;
        } else {
            out.push(c);
            proof {
                let rest1 = s@.subrange(i + 1 as int, n as int);
                assert(rest.subrange(1, rest.len() as int) =~= rest1);
                match unesc(rest1) {
                    Some(t) => {
                        assert(unesc(rest) == Some(seq![c] + t));
                        assert(pre + (seq![c] + t) =~= out@ + t);
                    },
                    None => {},
                }
            }
            i = i + 1;
        }
    }
    proof {
        assert(s@.subrange(n as int, n as int) =~= Seq::<char>::empty());
        assert(out@ + Seq::<char>::empty() =~= out@);
    }
    Some(out)
}

/// Index of the first separator in `s`, mirroring `find_char`.
fn find_sep(s: &str) -> (r: Option<usize>)
    ensures
        match r {
            Some(i) => find_char(s@, ',') == Some(i as int),
            None => find_char(s@, ',') is None,
        },
{
    let n = s.unicode_len();
    let mut i: usize = 0;
    while i < n
        invariant
            i <= n,
            n == s@.len(),
            forall|j: int| 0 <= j < i ==> s@[j] != ',',
        decreases n - i,
    {
        if s.get_char(i) == ',' {
            proof {
                lemma_find_char_at(s@, ',', i as int);
            }
            return Some(i);
        }
        i = i + 1;
    }
    proof {
        lemma_find_char_spec(s@, ',');
        if find_char(s@, ',') is Some {
            let k = find_char(s@, ',')->Some_0;
            assert(s@[k] == ',');
            assert(false);
        }
    }
    None
}

/// Decode one line of text; strict, mirroring `spec_decode`.
pub fn decode(u: &str) -> (r: Option<Command>)
    ensures
        match r {
            Some(c) => spec_decode(u@) == Some(c@),
            None => spec_decode(u@) is None,
        },
{
    let n = u.unicode_len();
    if n < 2 {
        return None;
    }
    if u.get_char(n - 1) != '\n' {
        return None;
    }
    let body = u.substring_char(1, n - 1);
    assert(body@ == u@.subrange(1, n - 1));
    let tag = u.get_char(0);
    if tag == 'S' {
        match find_sep(body) {
            Some(i) => {
                proof {
                    lemma_find_char_spec(body@, ',');
                }
                let bl = body.unicode_len();
                let bk = body.substring_char(0, i);
                let bv = body.substring_char(i + 1, bl);
                match unescape(bk) {
                    Some(key) => match unescape(bv) {
                        Some(val) => Some(Command::Put { key, val }),
                        None => None,
                    },
                    None => None,
                }
            },
            None => None,
        }
    } else if tag == 'R' {
        match unescape(body) {
            Some(key) => Some(Command::Remove { key }),
            None => None,
        }
    } else {
        None
    }
}

} // verus!
