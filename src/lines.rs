//! What `str::lines`, `str::trim` and `str::split_whitespace` return, stated
//! over sequences of characters, with the facts that reading a written CUBE
//! text needs.
use vstd::prelude::*;

verus! {

/// `char::is_whitespace`: the characters with the Unicode `White_Space` property.
pub open spec fn is_whitespace(c: char) -> bool {
    ||| '\u{9}' <= c && c <= '\u{d}'
    ||| c == ' '
    ||| c == '\u{85}'
    ||| c == '\u{a0}'
    ||| c == '\u{1680}'
    ||| '\u{2000}' <= c && c <= '\u{200a}'
    ||| c == '\u{2028}'
    ||| c == '\u{2029}'
    ||| c == '\u{202f}'
    ||| c == '\u{205f}'
    ||| c == '\u{3000}'
}

/// Index of the first `\n` in `s` at or after `from`, or the length of `s`.
pub open spec fn find_newline(s: Seq<char>, from: int) -> int
    decreases s.len() - from,
{
    if from >= s.len() {
        s.len() as int
    } else if s[from] == '\n' {
        from
    } else {
        find_newline(s, from + 1)
    }
}

/// A line without the `\r` of a `\r\n` ending.
pub open spec fn without_cr(l: Seq<char>) -> Seq<char> {
    if l.len() > 0 && l.last() == '\r' {
        l.drop_last()
    } else {
        l
    }
}

/// The lines of `s` from index `start`: split at each `\n`, with a `\r` just
/// before it dropped; a final line ending adds no empty line.
pub open spec fn lines_from(s: Seq<char>, start: int) -> Seq<Seq<char>>
    decreases s.len() - start,
{
    if start < 0 || start >= s.len() {
        seq![]
    } else {
        let k = find_newline(s, start);
        if start <= k < s.len() {
            seq![without_cr(s.subrange(start, k))] + lines_from(s, k + 1)
        } else {
            seq![s.subrange(start, s.len() as int)]
        }
    }
}

/// The lines of a text, as `str::lines` splits it.
pub open spec fn lines_of(s: Seq<char>) -> Seq<Seq<char>> {
    lines_from(s, 0)
}

/// Index of the first whitespace character in `s` at or after `from`, or the length of `s`.
pub open spec fn find_whitespace(s: Seq<char>, from: int) -> int
    decreases s.len() - from,
{
    if from >= s.len() {
        s.len() as int
    } else if is_whitespace(s[from]) {
        from
    } else {
        find_whitespace(s, from + 1)
    }
}

/// The words of `s` from index `start`: the maximal runs of characters that
/// are not whitespace.
pub open spec fn words_from(s: Seq<char>, start: int) -> Seq<Seq<char>>
    decreases s.len() - start,
{
    if start < 0 || start >= s.len() {
        seq![]
    } else if is_whitespace(s[start]) {
        words_from(s, start + 1)
    } else {
        let k = find_whitespace(s, start);
        if start < k <= s.len() {
            seq![s.subrange(start, k)] + words_from(s, k)
        } else {
            seq![]
        }
    }
}

/// The whitespace-separated words of a line, as `str::split_whitespace` gives them.
pub open spec fn words_of(s: Seq<char>) -> Seq<Seq<char>> {
    words_from(s, 0)
}

/// Index of the first character of `s` at or after `from` that is not whitespace.
pub open spec fn skip_whitespace(s: Seq<char>, from: int) -> int
    decreases s.len() - from,
{
    if from >= s.len() {
        s.len() as int
    } else if is_whitespace(s[from]) {
        skip_whitespace(s, from + 1)
    } else {
        from
    }
}

/// The end of `s[..to]` once the whitespace at its end is dropped.
pub open spec fn end_of_text(s: Seq<char>, to: int) -> int
    decreases to,
{
    if to <= 0 {
        0
    } else if is_whitespace(s[to - 1]) {
        end_of_text(s, to - 1)
    } else {
        to
    }
}

/// A line without leading and trailing whitespace, as `str::trim` gives it.
pub open spec fn trimmed(s: Seq<char>) -> Seq<char> {
    let a = skip_whitespace(s, 0);
    if a >= s.len() {
        seq![]
    } else {
        s.subrange(a, end_of_text(s, s.len() as int))
    }
}

/// `s` holds no character `c`.
pub open spec fn lacks(s: Seq<char>, c: char) -> bool {
    forall|i: int| 0 <= i < s.len() ==> s[i] != c
}

/// `s` holds no whitespace.
pub open spec fn solid(s: Seq<char>) -> bool {
    forall|i: int| 0 <= i < s.len() ==> !is_whitespace(s[i])
}

/// The lines of `ls`, each followed by `\n`.
pub open spec fn join_lines(ls: Seq<Seq<char>>) -> Seq<char>
    decreases ls.len(),
{
    if ls.len() == 0 {
        seq![]
    } else {
        ls[0] + seq!['\n'] + join_lines(ls.drop_first())
    }
}

/// Words joined by single spaces.
pub open spec fn join_words(ws: Seq<Seq<char>>) -> Seq<char>
    decreases ws.len(),
{
    if ws.len() == 0 {
        seq![]
    } else if ws.len() == 1 {
        ws[0]
    } else {
        ws[0] + seq![' '] + join_words(ws.drop_first())
    }
}

proof fn lemma_find_newline_shift(p: Seq<char>, q: Seq<char>, i: int)
    requires
        0 <= i <= q.len(),
    ensures
        find_newline(p + q, p.len() + i) == p.len() + find_newline(q, i),
    decreases q.len() - i,
{
    if i < q.len() {
        assert((p + q)[p.len() + i] == q[i]);
        if q[i] != '\n' {
            lemma_find_newline_shift(p, q, i + 1);
        }
    }
}

proof fn lemma_find_newline_bound(s: Seq<char>, from: int)
    requires
        0 <= from <= s.len(),
    ensures
        from <= find_newline(s, from) <= s.len(),
    decreases s.len() - from,
{
    if from < s.len() && s[from] != '\n' {
        lemma_find_newline_bound(s, from + 1);
    }
}

proof fn lemma_lines_shift(p: Seq<char>, q: Seq<char>, i: int)
    requires
        0 <= i <= q.len(),
    ensures
        lines_from(p + q, p.len() + i) == lines_from(q, i),
    decreases q.len() - i,
{
    let s = p + q;
    if i < q.len() {
        lemma_find_newline_shift(p, q, i);
        lemma_find_newline_bound(q, i);
        let k = find_newline(q, i);
        assert(s.subrange(p.len() + i, p.len() + k) =~= q.subrange(i, k));
        assert(s.subrange(p.len() + i, s.len() as int) =~= q.subrange(i, q.len() as int));
        if k < q.len() {
            lemma_lines_shift(p, q, k + 1);
        }
    }
}

proof fn lemma_find_newline_first(l: Seq<char>, s: Seq<char>, from: int)
    requires
        0 <= from <= l.len() < s.len(),
        s.subrange(0, l.len() as int) == l,
        s[l.len() as int] == '\n',
        lacks(l, '\n'),
    ensures
        find_newline(s, from) == l.len(),
    decreases l.len() - from,
{
    if from < l.len() {
        assert(s[from] == l[from]);
        lemma_find_newline_first(l, s, from + 1);
    }
}

/// Lines that hold no `\n` and do not end in `\r` are read back from their join.
pub proof fn lemma_lines_of_join(ls: Seq<Seq<char>>)
    requires
        forall|i: int| 0 <= i < ls.len() ==> lacks(#[trigger] ls[i], '\n'),
        forall|i: int|
            0 <= i < ls.len() ==> (#[trigger] ls[i]).len() == 0 || ls[i].last() != '\r',
    ensures
        lines_of(join_lines(ls)) == ls,
    decreases ls.len(),
{
    if ls.len() > 0 {
        let l = ls[0];
        let rest = ls.drop_first();
        assert forall|i: int| 0 <= i < rest.len() implies lacks(#[trigger] rest[i], '\n') by {
            assert(rest[i] == ls[i + 1]);
        }
        assert forall|i: int| 0 <= i < rest.len() implies (#[trigger] rest[i]).len() == 0
            || rest[i].last() != '\r' by {
            assert(rest[i] == ls[i + 1]);
        }
        lemma_lines_of_join(rest);
        let head = l + seq!['\n'];
        let s = join_lines(ls);
        assert(s == head + join_lines(rest));
        assert(s.subrange(0, l.len() as int) =~= l);
        lemma_find_newline_first(l, s, 0);
        lemma_lines_shift(head, join_lines(rest), 0);
        assert(without_cr(s.subrange(0, l.len() as int)) == l);
        assert(lines_of(s) =~= seq![l] + rest);
        assert(seq![l] + rest =~= ls);
    }
}

proof fn lemma_find_whitespace_shift(p: Seq<char>, q: Seq<char>, i: int)
    requires
        0 <= i <= q.len(),
    ensures
        find_whitespace(p + q, p.len() + i) == p.len() + find_whitespace(q, i),
    decreases q.len() - i,
{
    if i < q.len() {
        assert((p + q)[p.len() + i] == q[i]);
        if !is_whitespace(q[i]) {
            lemma_find_whitespace_shift(p, q, i + 1);
        }
    }
}

proof fn lemma_find_whitespace_bound(s: Seq<char>, from: int)
    requires
        0 <= from <= s.len(),
    ensures
        from <= find_whitespace(s, from) <= s.len(),
    decreases s.len() - from,
{
    if from < s.len() && !is_whitespace(s[from]) {
        lemma_find_whitespace_bound(s, from + 1);
    }
}

proof fn lemma_words_shift(p: Seq<char>, q: Seq<char>, i: int)
    requires
        0 <= i <= q.len(),
    ensures
        words_from(p + q, p.len() + i) == words_from(q, i),
    decreases q.len() - i,
{
    let s = p + q;
    if i < q.len() {
        assert(s[p.len() + i] == q[i]);
        if is_whitespace(q[i]) {
            lemma_words_shift(p, q, i + 1);
        } else {
            lemma_find_whitespace_shift(p, q, i);
            lemma_find_whitespace_bound(q, i);
            let k = find_whitespace(q, i);
            assert(s.subrange(p.len() + i, p.len() + k) =~= q.subrange(i, k));
            if i < k {
                lemma_words_shift(p, q, k);
            }
        }
    }
}

proof fn lemma_find_whitespace_first(w: Seq<char>, s: Seq<char>, from: int)
    requires
        0 <= from <= w.len() <= s.len(),
        s.subrange(0, w.len() as int) == w,
        w.len() == s.len() || is_whitespace(s[w.len() as int]),
        solid(w),
    ensures
        find_whitespace(s, from) == w.len(),
    decreases w.len() - from,
{
    if from < w.len() {
        assert(s[from] == w[from]);
        lemma_find_whitespace_first(w, s, from + 1);
    }
}

/// The words of a single word without whitespace.
proof fn lemma_words_single(w: Seq<char>)
    requires
        w.len() > 0,
        solid(w),
    ensures
        words_of(w) == seq![w],
{
    assert(w.subrange(0, w.len() as int) =~= w);
    lemma_find_whitespace_first(w, w, 0);
    assert(words_from(w, w.len() as int) == Seq::<Seq<char>>::empty());
    assert(words_of(w) =~= seq![w]);
}

/// A word and a space come first among the words of a line.
pub(crate) proof fn lemma_words_cons(w: Seq<char>, rest: Seq<char>)
    requires
        w.len() > 0,
        solid(w),
    ensures
        words_of(w + seq![' '] + rest) == seq![w] + words_of(rest),
{
    let s = w + seq![' '] + rest;
    assert(s.subrange(0, w.len() as int) =~= w);
    assert(s[w.len() as int] == ' ');
    lemma_find_whitespace_first(w, s, 0);
    assert(words_from(s, w.len() as int) == words_from(s, (w.len() + 1) as int));
    lemma_words_shift(w + seq![' '], rest, 0);
}

/// Words without whitespace are read back from their join.
pub proof fn lemma_words_of_join(ws: Seq<Seq<char>>)
    requires
        ws.len() > 0,
        forall|i: int| 0 <= i < ws.len() ==> (#[trigger] ws[i]).len() > 0 && solid(ws[i]),
    ensures
        words_of(join_words(ws)) == ws,
    decreases ws.len(),
{
    if ws.len() == 1 {
        lemma_words_single(ws[0]);
        assert(seq![ws[0]] =~= ws);
    } else {
        let rest = ws.drop_first();
        assert forall|i: int| 0 <= i < rest.len() implies (#[trigger] rest[i]).len() > 0 && solid(
            rest[i],
        ) by {
            assert(rest[i] == ws[i + 1]);
        }
        lemma_words_of_join(rest);
        assert(ws[0].len() > 0 && solid(ws[0]));
        lemma_words_cons(ws[0], join_words(rest));
        assert(seq![ws[0]] + rest =~= ws);
    }
}

/// Joining lines and then one more line adds that line and a line ending.
pub proof fn lemma_join_push(ls: Seq<Seq<char>>, l: Seq<char>)
    ensures
        join_lines(ls.push(l)) == join_lines(ls) + l + seq!['\n'],
    decreases ls.len(),
{
    if ls.len() == 0 {
        assert(ls.push(l).drop_first() =~= Seq::<Seq<char>>::empty());
        assert(ls.push(l)[0] == l);
        assert(join_lines(Seq::<Seq<char>>::empty()) == Seq::<char>::empty());
        assert(join_lines(ls) == Seq::<char>::empty());
        assert(join_lines(ls.push(l)) =~= l + seq!['\n']);
    } else {
        assert(ls.push(l).drop_first() =~= ls.drop_first().push(l));
        assert(ls.push(l)[0] == ls[0]);
        lemma_join_push(ls.drop_first(), l);
        assert(join_lines(ls.push(l)) =~= join_lines(ls) + l + seq!['\n']);
    }
}

/// A line that starts and ends with characters that are not whitespace is
/// its own trimmed form, and so is the empty line.
pub proof fn lemma_trimmed_unchanged(s: Seq<char>)
    requires
        s.len() == 0 || (!is_whitespace(s[0]) && !is_whitespace(s.last())),
    ensures
        trimmed(s) == s,
{
    if s.len() > 0 {
        assert(s.subrange(0, s.len() as int) =~= s);
    }
}

} // verus!
