//! Character-level text processing: query normalization and word splitting.
//!
//! The spec functions here are the mathematical model that every contract of
//! the engine is phrased over: [`normalize`] describes query normalization
//! (trim, drop non-ASCII, fold to lowercase) and [`words_of`] describes the
//! separator split shared by items and queries.

use vstd::prelude::*;

verus! {

/// ASCII whitespace, the characters removed from the ends of a query.
pub open spec fn is_ws(c: char) -> bool {
    c == ' ' || c == '\t' || c == '\n' || c == '\r' || c == '\u{b}' || c == '\u{c}'
}

/// Whether a character is ASCII.
pub open spec fn is_ascii_char(c: char) -> bool {
    (c as u32) < 128
}

/// Lowercases one ASCII uppercase character; other characters are unchanged.
pub open spec fn lower_char(c: char) -> char {
    if 'A' <= c && c <= 'Z' {
        (((c as u8) + 32) as char)
    } else {
        c
    }
}

/// The sequence without its leading whitespace.
pub open spec fn trim_front(s: Seq<char>) -> Seq<char>
    decreases s.len(),
{
    if s.len() > 0 && is_ws(s[0]) {
        trim_front(s.drop_first())
    } else {
        s
    }
}

/// The sequence without its trailing whitespace.
pub open spec fn trim_back(s: Seq<char>) -> Seq<char>
    decreases s.len(),
{
    if s.len() > 0 && is_ws(s.last()) {
        trim_back(s.drop_last())
    } else {
        s
    }
}

/// Non-ASCII characters dropped, the rest folded to ASCII lowercase.
pub open spec fn norm_chars(s: Seq<char>) -> Seq<char>
    decreases s.len(),
{
    if s.len() == 0 {
        Seq::empty()
    } else {
        (if is_ascii_char(s[0]) {
            seq![lower_char(s[0])]
        } else {
            Seq::<char>::empty()
        }) + norm_chars(s.drop_first())
    }
}

/// Query normalization: trim whitespace at both ends, drop non-ASCII
/// characters, fold to ASCII lowercase.
pub open spec fn normalize(s: Seq<char>) -> Seq<char> {
    norm_chars(trim_back(trim_front(s)))
}

/// The non-empty words of `s[i..]` under the separator set `seps`, given
/// that `cur` is the partial word read so far.
pub open spec fn split_rest(s: Seq<char>, seps: Seq<char>, i: int, cur: Seq<char>) -> Seq<
    Seq<char>,
>
    decreases s.len() - i,
{
    if i < 0 || i >= s.len() {
        if cur.len() > 0 {
            seq![cur]
        } else {
            Seq::empty()
        }
    } else if seps.contains(s[i]) {
        (if cur.len() > 0 {
            seq![cur]
        } else {
            Seq::<Seq<char>>::empty()
        }) + split_rest(s, seps, i + 1, Seq::empty())
    } else {
        split_rest(s, seps, i + 1, cur.push(s[i]))
    }
}

/// The non-empty words of `s` under the separator set `seps`, in order of
/// appearance (duplicates kept).
pub open spec fn words_of(s: Seq<char>, seps: Seq<char>) -> Seq<Seq<char>> {
    split_rest(s, seps, 0, Seq::empty())
}

/// The views of a sequence of character vectors.
pub open spec fn views_of(s: Seq<Vec<char>>) -> Seq<Seq<char>> {
    Seq::new(s.len(), |i: int| s[i]@)
}

/// Appending to the input appends to the normalized output.
pub proof fn lemma_norm_append(a: Seq<char>, b: Seq<char>)
    ensures
        norm_chars(a + b) == norm_chars(a) + norm_chars(b),
    decreases a.len(),
{
    if a.len() == 0 {
        assert(a + b =~= b);
        assert(norm_chars(a) + norm_chars(b) =~= norm_chars(b));
    } else {
        lemma_norm_append(a.drop_first(), b);
        assert((a + b).drop_first() =~= a.drop_first() + b);
        assert(norm_chars(a + b) =~= norm_chars(a) + norm_chars(b));
    }
}

/// Converts a string slice into the vector of its characters.
pub fn chars_of(s: &str) -> (v: Vec<char>)
    ensures
        v@ == s@,
{
    let n: usize = s.unicode_len();
    let mut v: Vec<char> = Vec::new();
    let mut i: usize = 0;
    while i < n
        invariant
            n == s@.len(),
            i <= n,
            v@ =~= s@.subrange(0, i as int),
        decreases n - i,
    {
        v.push(s.get_char(i));
        i = i + 1;
    }
    proof {
        assert(v@ =~= s@);
    }
    v
}

/// Whether `c` occurs in `seps`.
pub fn char_in(c: char, seps: &Vec<char>) -> (r: bool)
    ensures
        r == seps@.contains(c),
{
    let n: usize = seps.len();
    let mut i: usize = 0;
    while i < n
        invariant
            n == seps@.len(),
            i <= n,
            forall|k: int| 0 <= k < i ==> seps@[k] != c,
        decreases n - i,
    {
        if seps[i] == c {
            return true;
        }
        i = i + 1;
    }
    false
}

/// Whether two character vectors hold the same characters.
pub fn chars_eq(a: &Vec<char>, b: &Vec<char>) -> (r: bool)
    ensures
        r == (a@ == b@),
{
    if a.len() != b.len() {
        return false;
    }
    let n: usize = a.len();
    let mut i: usize = 0;
    while i < n
        invariant
            n == a@.len(),
            n == b@.len(),
            i <= n,
            forall|k: int| 0 <= k < i ==> a@[k] == b@[k],
        decreases n - i,
    {
        if a[i] != b[i] {
            return false;
        }
        i = i + 1;
    }
    proof {
        assert(a@ =~= b@);
    }
    true
}

/// Whether the view of `w` occurs among the views of `ws`.
pub fn word_in(ws: &Vec<Vec<char>>, w: &Vec<char>) -> (r: bool)
    ensures
        r == views_of(ws@).contains(w@),
{
    let n: usize = ws.len();
    let mut i: usize = 0;
    while i < n
        invariant
            n == ws@.len(),
            i <= n,
            forall|k: int| 0 <= k < i ==> ws@[k]@ != w@,
        decreases n - i,
    {
        if chars_eq(&ws[i], w) {
            proof {
                assert(views_of(ws@)[i as int] == w@);
            }
            return true;
        }
        i = i + 1;
    }
    proof {
        assert(forall|k: int| 0 <= k < views_of(ws@).len() ==> views_of(ws@)[k] != w@);
    }
    false
}

/// Applies query normalization to a character vector.
pub fn normalize_chars(v: &Vec<char>) -> (out: Vec<char>)
    ensures
        out@ == normalize(v@),
{
    let ghost s = v@;
    let n: usize = v.len();
    proof {
        assert(s.subrange(0, n as int) =~= s);
    }
    let mut a: usize = 0;
    while a < n && is_ws_exec(v[a])
        invariant
            v@ == s,
            n == s.len(),
            a <= n,
            trim_front(s) == trim_front(s.subrange(a as int, n as int)),
        decreases n - a,
    {
        proof {
            assert(s.subrange(a as int, n as int).drop_first() =~= s.subrange(
                a as int + 1,
                n as int,
            ));
        }
        a = a + 1;
    }
    proof {
        assert(trim_front(s) == s.subrange(a as int, n as int));
    }
    let mut b: usize = n;
    while b > a && is_ws_exec(v[b - 1])
        invariant
            v@ == s,
            n == s.len(),
            a <= b <= n,
            trim_front(s) == s.subrange(a as int, n as int),
            trim_back(s.subrange(a as int, n as int)) == trim_back(
                s.subrange(a as int, b as int),
            ),
        decreases b,
    {
        proof {
            assert(s.subrange(a as int, b as int).drop_last() =~= s.subrange(
                a as int,
                b as int - 1,
            ));
        }
        b = b - 1;
    }
    proof {
        assert(trim_back(trim_front(s)) == s.subrange(a as int, b as int));
    }
    let ghost t = s.subrange(a as int, b as int);
    let mut out: Vec<char> = Vec::new();
    let mut i: usize = a;
    while i < b
        invariant
            v@ == s,
            n == s.len(),
            a <= i <= b <= n,
            t == s.subrange(a as int, b as int),
            out@ == norm_chars(s.subrange(a as int, i as int)),
        decreases b - i,
    {
        let c = v[i];
        proof {
            lemma_norm_append(s.subrange(a as int, i as int), seq![s[i as int]]);
            assert(s.subrange(a as int, i as int + 1) =~= s.subrange(a as int, i as int) + seq![
                s[i as int],
            ]);
            assert(seq![s[i as int]].drop_first() =~= Seq::<char>::empty());
            assert(norm_chars(Seq::<char>::empty()) =~= Seq::<char>::empty());
        }
        if (c as u32) < 128 {
            let lc: char = if 'A' <= c && c <= 'Z' {
                ((c as u8) + 32) as char
            } else {
                c
            };
            out.push(lc);
            proof {
                assert(norm_chars(seq![s[i as int]]) =~= seq![lower_char(s[i as int])]);
                assert(out@ =~= norm_chars(s.subrange(a as int, i as int)) + seq![
                    lower_char(s[i as int]),
                ]);
            }
        } else {
            proof {
                assert(norm_chars(seq![s[i as int]]) =~= Seq::<char>::empty());
                assert(out@ =~= norm_chars(s.subrange(a as int, i as int)) + norm_chars(
                    seq![s[i as int]],
                ));
            }
        }
        i = i + 1;
    }
    proof {
        assert(out@ == norm_chars(t));
    }
    out
}

/// Executable test for ASCII whitespace.
pub fn is_ws_exec(c: char) -> (r: bool)
    ensures
        r == is_ws(c),
{
    c == ' ' || c == '\t' || c == '\n' || c == '\r' || c == '\u{b}' || c == '\u{c}'
}

/// Splits a character vector into its non-empty words.
pub fn split_words(v: &Vec<char>, seps: &Vec<char>) -> (out: Vec<Vec<char>>)
    ensures
        views_of(out@) == words_of(v@, seps@),
{
    let ghost s = v@;
    let n: usize = v.len();
    let mut out: Vec<Vec<char>> = Vec::new();
    let mut cur: Vec<char> = Vec::new();
    let mut i: usize = 0;
    while i < n
        invariant
            v@ == s,
            n == s.len(),
            i <= n,
            words_of(s, seps@) == views_of(out@) + split_rest(s, seps@, i as int, cur@),
        decreases n - i,
    {
        let c = v[i];
        if char_in(c, seps) {
            if cur.len() > 0 {
                let ghost old_out = out@;
                let ghost w = cur@;
                out.push(cur);
                cur = Vec::new();
                proof {
                    assert(split_rest(s, seps@, i as int, w) == seq![w] + split_rest(
                        s,
                        seps@,
                        i as int + 1,
                        Seq::empty(),
                    ));
                    assert(views_of(out@) =~= views_of(old_out) + seq![w]);
                    assert(views_of(old_out) + (seq![w] + split_rest(s, seps@, i as int + 1, Seq::empty()))
                        =~= (views_of(old_out) + seq![w]) + split_rest(s, seps@, i as int + 1, Seq::empty()));
                    assert(words_of(s, seps@) == views_of(out@) + split_rest(s, seps@, i as int + 1, cur@));
                }
            } else {
                proof {
                    assert(cur@ =~= Seq::<char>::empty());
                    assert(split_rest(s, seps@, i as int, cur@) == Seq::<Seq<char>>::empty()
                        + split_rest(s, seps@, i as int + 1, Seq::empty()));
                    assert(Seq::<Seq<char>>::empty() + split_rest(s, seps@, i as int + 1, Seq::empty())
                        =~= split_rest(s, seps@, i as int + 1, Seq::empty()));
                    assert(words_of(s, seps@) == views_of(out@) + split_rest(s, seps@, i as int + 1, cur@));
                }
            }
        } else {
            proof {
                assert(split_rest(s, seps@, i as int, cur@) == split_rest(
                    s,
                    seps@,
                    i as int + 1,
                    cur@.push(s[i as int]),
                ));
            }
            cur.push(c);
            proof {
                assert(words_of(s, seps@) == views_of(out@) + split_rest(s, seps@, i as int + 1, cur@));
            }
        }
        i = i + 1;
    }
    if cur.len() > 0 {
        let ghost old_out = out@;
        let ghost w = cur@;
        out.push(cur);
        proof {
            assert(views_of(out@) =~= views_of(old_out) + seq![w]);
        }
    }
    proof {
        assert(views_of(out@) =~= words_of(s, seps@));
    }
    out
}

} // verus!
