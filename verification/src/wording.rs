//! Laws of the text operations that the printed form is made with.

use vstd::prelude::*;
use crate::lines::{byte_len, count, count_from, join, joined, lines, lines_from, lower_all, replace, replace_from, text_lt};
use crate::text::{after, at, before, cut_prefix, cut_suffix, find, find_any_from, find_from, first_piece, last_piece, rfind_any_before, set_end, set_start, strip_end, strip_start, trim, trim_end, trim_start, ws, ws_end, ws_start};

verus! {

/// The characters of `x` stand in `t` from position `i` on.
pub open spec fn occurs(t: Seq<char>, x: Seq<char>, i: int) -> bool {
    0 <= i && i + x.len() <= t.len() && forall|k: int| 0 <= k < x.len() ==> t[i + k] == #[trigger] x[k]
}

pub proof fn lemma_at(t: Seq<char>, x: Seq<char>, i: int)
    ensures
        at(t, x, i) == occurs(t, x, i),
{
    if occurs(t, x, i) {
        assert(t.subrange(i, i + x.len()) =~= x);
    }
    if at(t, x, i) {
        assert forall|k: int| 0 <= k < x.len() implies t[i + k] == #[trigger] x[k] by {
            assert(t.subrange(i, i + x.len())[k] == x[k]);
        }
    }
}

// ─── Finding ────────────────────────────────────────────────────────────────

proof fn lemma_find_from(t: Seq<char>, x: Seq<char>, i: int)
    requires
        0 <= i <= t.len(),
    ensures
        match find_from(t, x, i) {
            Some(p) => i <= p && occurs(t, x, p) && forall|j: int| i <= j < p ==> !#[trigger] occurs(t, x, j),
            None => forall|j: int| i <= j ==> !#[trigger] occurs(t, x, j),
        },
    decreases t.len() - i,
{
    lemma_at(t, x, i);
    if i + x.len() <= t.len() && !at(t, x, i) && i < t.len() {
        lemma_find_from(t, x, i + 1);
    }
}

/// Searching finds the first place where the text occurs, and nothing only if there is none.
pub proof fn law_find_is_first(t: Seq<char>, x: Seq<char>)
    ensures
        match find(t, x) {
            Some(p) => occurs(t, x, p) && forall|j: int| 0 <= j < p ==> !#[trigger] occurs(t, x, j),
            None => forall|j: int| !#[trigger] occurs(t, x, j),
        },
{
    lemma_find_from(t, x, 0);
}

pub proof fn lemma_find_any(t: Seq<char>, set: Seq<char>, i: int)
    requires
        0 <= i <= t.len(),
    ensures
        match find_any_from(t, set, i) {
            Some(p) => i <= p < t.len() && set.contains(t[p]) && forall|j: int| i <= j < p ==> !set.contains(#[trigger] t[j]),
            None => forall|j: int| i <= j < t.len() ==> !set.contains(#[trigger] t[j]),
        },
    decreases t.len() - i,
{
    if i < t.len() && !set.contains(t[i]) {
        lemma_find_any(t, set, i + 1);
    }
}

proof fn lemma_rfind_any(t: Seq<char>, set: Seq<char>, n: int)
    requires
        0 <= n <= t.len(),
    ensures
        match rfind_any_before(t, set, n) {
            Some(p) => 0 <= p < n && set.contains(t[p]) && forall|j: int| p < j < n ==> !set.contains(#[trigger] t[j]),
            None => forall|j: int| 0 <= j < n ==> !set.contains(#[trigger] t[j]),
        },
    decreases n,
{
    if n > 0 && !set.contains(t[n - 1]) {
        lemma_rfind_any(t, set, n - 1);
    }
}

/// The first and the last piece of a text are what stands before the first and behind the last
/// separator: they hold none, and stand at the ends of the text.
pub proof fn law_pieces(t: Seq<char>, set: Seq<char>)
    ensures
        first_piece(t, set).is_prefix_of(t),
        forall|i: int| 0 <= i < first_piece(t, set).len() ==> !set.contains(#[trigger] first_piece(t, set)[i]),
        first_piece(t, set).len() < t.len() ==> set.contains(t[first_piece(t, set).len() as int]),
        last_piece(t, set).len() <= t.len() && t.skip(t.len() - last_piece(t, set).len()) == last_piece(t, set),
        forall|i: int| 0 <= i < last_piece(t, set).len() ==> !set.contains(#[trigger] last_piece(t, set)[i]),
        last_piece(t, set).len() < t.len() ==> set.contains(t[t.len() - last_piece(t, set).len() - 1]),
{
    lemma_find_any(t, set, 0);
    lemma_rfind_any(t, set, t.len() as int);
    let a = first_piece(t, set);
    let b = last_piece(t, set);
    assert forall|i: int| 0 <= i < a.len() implies !set.contains(#[trigger] a[i]) by {
        assert(a[i] == t[i]);
    }
    assert(t.skip(t.len() - b.len()) =~= b);
    assert forall|i: int| 0 <= i < b.len() implies !set.contains(#[trigger] b[i]) by {
        assert(b[i] == t[t.len() - b.len() + i]);
    }
}

// ─── Cutting ────────────────────────────────────────────────────────────────

/// Every character is white space.
pub open spec fn blank(t: Seq<char>) -> bool {
    forall|i: int| 0 <= i < t.len() ==> ws(#[trigger] t[i])
}

pub proof fn lemma_ws_end(t: Seq<char>, i: int)
    requires
        0 <= i <= t.len(),
    ensures
        i <= ws_end(t, i) <= t.len(),
        forall|j: int| i <= j < ws_end(t, i) ==> ws(#[trigger] t[j]),
        ws_end(t, i) < t.len() ==> !ws(t[ws_end(t, i)]),
    decreases t.len() - i,
{
    if i < t.len() && ws(t[i]) {
        lemma_ws_end(t, i + 1);
    }
}

pub proof fn lemma_ws_start(t: Seq<char>, n: int)
    requires
        0 <= n <= t.len(),
    ensures
        0 <= ws_start(t, n) <= n,
        forall|j: int| ws_start(t, n) <= j < n ==> ws(#[trigger] t[j]),
        ws_start(t, n) > 0 ==> !ws(t[ws_start(t, n) - 1]),
    decreases n,
{
    if n > 0 && ws(t[n - 1]) {
        lemma_ws_start(t, n - 1);
    }
}

/// `t` is `m` between two stretches of white space.
pub open spec fn padded(t: Seq<char>, left: Seq<char>, m: Seq<char>, right: Seq<char>) -> bool {
    t == left + m + right && blank(left) && blank(right)
}

/// Trimming takes off white space at both ends, all of it and nothing else.
pub proof fn law_trim(t: Seq<char>)
    ensures
        exists|left: Seq<char>, right: Seq<char>| #[trigger] padded(t, left, trim(t), right),
        trim(t).len() > 0 ==> !ws(trim(t)[0]) && !ws(trim(t).last()),
        trim(trim(t)) == trim(t),
{
    let s = trim_start(t);
    lemma_ws_end(t, 0);
    lemma_ws_start(s, s.len() as int);
    let m = trim(t);
    let left = before(t, ws_end(t, 0));
    let right = after(s, ws_start(s, s.len() as int));
    assert(t =~= left + m + right);
    assert(blank(left)) by {
        assert forall|i: int| 0 <= i < left.len() implies ws(#[trigger] left[i]) by {
            assert(left[i] == t[i]);
        }
    }
    assert(blank(right)) by {
        assert forall|i: int| 0 <= i < right.len() implies ws(#[trigger] right[i]) by {
            assert(right[i] == s[ws_start(s, s.len() as int) + i]);
        }
    }
    assert(padded(t, left, m, right));
    if m.len() > 0 {
        assert(m[0] == s[0]);
        assert(m.last() == s[ws_start(s, s.len() as int) - 1]);
    }
    lemma_ws_end(m, 0);
    assert(trim_start(m) =~= m);
    lemma_ws_start(m, m.len() as int);
    assert(trim_end(m) =~= m);
}

proof fn lemma_set_end(t: Seq<char>, set: Seq<char>, i: int)
    requires
        0 <= i <= t.len(),
    ensures
        i <= set_end(t, set, i) <= t.len(),
        forall|j: int| i <= j < set_end(t, set, i) ==> set.contains(#[trigger] t[j]),
        set_end(t, set, i) < t.len() ==> !set.contains(t[set_end(t, set, i)]),
    decreases t.len() - i,
{
    if i < t.len() && set.contains(t[i]) {
        lemma_set_end(t, set, i + 1);
    }
}

proof fn lemma_set_start(t: Seq<char>, set: Seq<char>, n: int)
    requires
        0 <= n <= t.len(),
    ensures
        0 <= set_start(t, set, n) <= n,
        forall|j: int| set_start(t, set, n) <= j < n ==> set.contains(#[trigger] t[j]),
        set_start(t, set, n) > 0 ==> !set.contains(t[set_start(t, set, n) - 1]),
    decreases n,
{
    if n > 0 && set.contains(t[n - 1]) {
        lemma_set_start(t, set, n - 1);
    }
}

/// Stripping takes characters of the set off one end, all of them and nothing else; a prefix or
/// a suffix is cut off whole, and only if it is there.
pub proof fn law_strip_and_cut(t: Seq<char>, set: Seq<char>, x: Seq<char>)
    ensures
        ({
            let s = strip_start(t, set);
            let e = strip_end(t, set);
            &&& s.len() <= t.len() && t.skip(t.len() - s.len()) == s
            &&& forall|i: int| 0 <= i < t.len() - s.len() ==> set.contains(#[trigger] t[i])
            &&& s.len() > 0 ==> !set.contains(s[0])
            &&& e.is_prefix_of(t)
            &&& forall|i: int| e.len() <= i < t.len() ==> set.contains(#[trigger] t[i])
            &&& e.len() > 0 ==> !set.contains(e.last())
        }),
        match cut_prefix(t, x) {
            Some(rest) => t == x + rest,
            None => !occurs(t, x, 0),
        },
        match cut_suffix(t, x) {
            Some(rest) => t == rest + x,
            None => !occurs(t, x, t.len() - x.len()),
        },
{
    lemma_set_end(t, set, 0);
    lemma_set_start(t, set, t.len() as int);
    let s = strip_start(t, set);
    assert(t.skip(t.len() - s.len()) =~= s);
    lemma_at(t, x, 0);
    lemma_at(t, x, t.len() - x.len());
    if let Some(rest) = cut_prefix(t, x) {
        assert(t =~= x + rest);
    }
    if let Some(rest) = cut_suffix(t, x) {
        assert(t =~= rest + x);
    }
}

// ─── Lines ──────────────────────────────────────────────────────────────────

/// The items of a joined text follow one another, with the separator between them.
pub proof fn law_join(v: Seq<Seq<char>>, w: Seq<Seq<char>>, sep: Seq<char>)
    requires
        v.len() > 0,
        w.len() > 0,
    ensures
        join(v + w, sep) == join(v, sep) + sep + join(w, sep),
        join(seq![v[0]], sep) == v[0],
    decreases w.len(),
{
    if w.len() == 1 {
        assert((v + w).drop_last() =~= v);
        assert(w[0] == (v + w).last());
    } else {
        law_join(v, w.drop_last(), sep);
        assert((v + w).drop_last() =~= v + w.drop_last());
        assert((v + w).last() == w.last());
        assert(join(v, sep) + sep + join(w.drop_last(), sep) + sep + w.last() =~= join(v, sep) + sep + (join(
            w.drop_last(),
            sep,
        ) + sep + w.last()));
    }
}

/// No character of the text is `c`.
pub open spec fn without(t: Seq<char>, c: char) -> bool {
    forall|i: int| 0 <= i < t.len() ==> #[trigger] t[i] != c
}

/// Every item, each ended by a line feed.
pub open spec fn ended_all(v: Seq<Seq<char>>) -> Seq<char>
    decreases v.len(),
{
    if v.len() == 0 {
        Seq::empty()
    } else {
        ended_all(v.drop_last()) + v.last() + seq!['\n']
    }
}

proof fn lemma_ended_join(v: Seq<Seq<char>>)
    requires
        v.len() > 0,
    ensures
        ended_all(v) == join(v, "\n"@) + seq!['\n'],
    decreases v.len(),
{
    reveal_strlit("\n");
    assert("\n"@ =~= seq!['\n']);
    if v.len() == 1 {
        assert(ended_all(v.drop_last()) =~= Seq::empty());
        assert(ended_all(v) =~= v[0] + seq!['\n']);
    } else {
        lemma_ended_join(v.drop_last());
    }
}

proof fn lemma_lines_from(t: Seq<char>, start: int, i: int, acc: Seq<Seq<char>>)
    requires
        without(t, '\r'),
        0 <= start <= i <= t.len(),
        forall|j: int| start <= j < i ==> #[trigger] t[j] != '\n',
        ended_all(acc) == t.take(start),
        forall|k: int| 0 <= k < acc.len() ==> without(#[trigger] acc[k], '\n'),
    ensures
        ({
            let v = lines_from(t, start, i, acc);
            &&& forall|k: int| 0 <= k < v.len() ==> without(#[trigger] v[k], '\n')
            &&& if t.len() == 0 || t.last() == '\n' {
                ended_all(v) == t
            } else {
                v.len() > 0 && ended_all(v) == t + seq!['\n']
            }
        }),
    decreases t.len() - i,
{
    if i >= t.len() {
        if start < t.len() {
            let last = t.subrange(start, t.len() as int);
            let v = acc.push(last);
            assert(v.drop_last() =~= acc);
            assert(t.take(start) + last =~= t);
            assert(without(last, '\n')) by {
                assert forall|k: int| 0 <= k < last.len() implies #[trigger] last[k] != '\n' by {
                    assert(last[k] == t[start + k]);
                }
            }
            assert(t.last() == t[t.len() - 1]);
        } else {
            assert(t.take(start) =~= t);
            if t.len() > 0 {
                assert(acc.len() > 0) by {
                    if acc.len() == 0 {
                        assert(ended_all(acc).len() == 0);
                    }
                }
                assert(ended_all(acc).last() == '\n');
            }
        }
    } else if t[i] == '\n' {
        let cut = t.subrange(start, i);
        assert(cut.len() > 0 ==> cut.last() == t[i - 1]);
        let v = acc.push(cut);
        assert(v.drop_last() =~= acc);
        assert(t.take(start) + cut + seq!['\n'] =~= t.take(i + 1));
        assert(without(cut, '\n')) by {
            assert forall|k: int| 0 <= k < cut.len() implies #[trigger] cut[k] != '\n' by {
                assert(cut[k] == t[start + k]);
            }
        }
        lemma_lines_from(t, i + 1, i + 1, v);
    } else {
        lemma_lines_from(t, start, i + 1, acc);
    }
}

/// Cutting a text into lines and joining them gives back the text, and no line holds a line
/// feed.
pub proof fn law_lines_join(t: Seq<char>)
    requires
        without(t, '\r'),
        t.len() > 0,
    ensures
        joined(t, lines(t)) == t,
        forall|k: int| 0 <= k < lines(t).len() ==> without(#[trigger] lines(t)[k], '\n'),
{
    reveal_strlit("\n");
    assert(ended_all(Seq::empty()) =~= t.take(0));
    lemma_lines_from(t, 0, 0, Seq::empty());
    let v = lines(t);
    if v.len() > 0 {
        lemma_ended_join(v);
        let j = join(v, "\n"@);
        if t.last() == '\n' {
            assert(j.push('\n') =~= j + seq!['\n']);
        } else {
            assert((j + seq!['\n']).drop_last() =~= j);
            assert((t + seq!['\n']).drop_last() =~= t);
        }
    }
}

// ─── Replacement and counting ───────────────────────────────────────────────

proof fn lemma_replace_acc(t: Seq<char>, from: Seq<char>, to: Seq<char>, i: int, acc: Seq<char>)
    requires
        0 <= i,
        from.len() > 0,
    ensures
        replace_from(t, from, to, i, acc) == acc + replace_from(t, from, to, i, Seq::empty()),
    decreases t.len() - i,
{
    let e = Seq::<char>::empty();
    if i < t.len() {
        if at(t, from, i) {
            let k = i + from.len();
            lemma_replace_acc(t, from, to, k, acc + to);
            lemma_replace_acc(t, from, to, k, e + to);
            assert(acc + to + replace_from(t, from, to, k, e) =~= acc + (e + to + replace_from(t, from, to, k, e)));
        } else {
            let c = seq![t[i]];
            lemma_replace_acc(t, from, to, i + 1, acc + c);
            lemma_replace_acc(t, from, to, i + 1, e + c);
            assert(acc + c + replace_from(t, from, to, i + 1, e) =~= acc + (e + c + replace_from(
                t,
                from,
                to,
                i + 1,
                e,
            )));
        }
    } else {
        assert(acc + e =~= acc);
    }
}

proof fn lemma_replace_suffix(t: Seq<char>, from: Seq<char>, to: Seq<char>, d: int, i: int)
    requires
        0 <= d <= i,
        d <= t.len(),
        from.len() > 0,
    ensures
        replace_from(t, from, to, i, Seq::empty()) == replace_from(t.skip(d), from, to, i - d, Seq::empty()),
        count_from(t, from, i) == count_from(t.skip(d), from, i - d),
    decreases t.len() - i,
{
    let s = t.skip(d);
    let e = Seq::<char>::empty();
    if i < t.len() {
        lemma_at(t, from, i);
        lemma_at(s, from, i - d);
        assert(occurs(t, from, i) == occurs(s, from, i - d)) by {
            if occurs(t, from, i) {
                assert forall|k: int| 0 <= k < from.len() implies s[i - d + k] == #[trigger] from[k] by {
                    assert(t[i + k] == from[k]);
                }
            }
            if occurs(s, from, i - d) {
                assert forall|k: int| 0 <= k < from.len() implies t[i + k] == #[trigger] from[k] by {
                    assert(s[i - d + k] == from[k]);
                }
            }
        }
        if at(t, from, i) {
            let k = i + from.len();
            lemma_replace_suffix(t, from, to, d, k);
            lemma_replace_acc(t, from, to, k, e + to);
            lemma_replace_acc(s, from, to, k - d, e + to);
        } else {
            lemma_replace_suffix(t, from, to, d, i + 1);
            lemma_replace_acc(t, from, to, i + 1, e + seq![t[i]]);
            lemma_replace_acc(s, from, to, i + 1 - d, e + seq![s[i - d]]);
        }
    }
}

proof fn lemma_replace_skip(t: Seq<char>, from: Seq<char>, to: Seq<char>, i: int, p: int)
    requires
        0 <= i <= p <= t.len(),
        from.len() > 0,
        forall|j: int| i <= j < p ==> !#[trigger] occurs(t, from, j),
    ensures
        replace_from(t, from, to, i, Seq::empty()) == t.subrange(i, p) + replace_from(t, from, to, p, Seq::empty()),
        count_from(t, from, i) == count_from(t, from, p),
    decreases p - i,
{
    let e = Seq::<char>::empty();
    if i < p {
        lemma_at(t, from, i);
        assert(!occurs(t, from, i));
        lemma_replace_skip(t, from, to, i + 1, p);
        lemma_replace_acc(t, from, to, i + 1, e + seq![t[i]]);
        assert(e + seq![t[i]] + (t.subrange(i + 1, p) + replace_from(t, from, to, p, e)) =~= t.subrange(i, p)
            + replace_from(t, from, to, p, e));
    } else {
        assert(t.subrange(i, p) + replace_from(t, from, to, p, e) =~= replace_from(t, from, to, p, e));
    }
}

/// Replacing changes the first occurrence and goes on behind it; a text without an occurrence
/// stays as it is. Counting counts the same places.
pub proof fn law_replace_and_count(t: Seq<char>, from: Seq<char>, to: Seq<char>)
    requires
        from.len() > 0,
    ensures
        match find(t, from) {
            Some(p) => {
                &&& 0 <= p && p + from.len() <= t.len()
                &&& replace(t, from, to) == t.take(p) + to + replace(t.skip(p + from.len()), from, to)
                &&& count(t, from) == 1 + count(t.skip(p + from.len()), from)
            },
            None => replace(t, from, to) == t && count(t, from) == 0,
        },
{
    law_find_is_first(t, from);
    let e = Seq::<char>::empty();
    match find(t, from) {
        Some(p) => {
            let k = p + from.len();
            lemma_replace_skip(t, from, to, 0, p);
            lemma_at(t, from, p);
            lemma_replace_acc(t, from, to, k, e + to);
            lemma_replace_suffix(t, from, to, k, k);
            assert(t.subrange(0, p) =~= t.take(p));
            assert(t.take(p) + (e + to + replace_from(t, from, to, k, e)) =~= t.take(p) + to + replace_from(
                t,
                from,
                to,
                k,
                e,
            ));
        },
        None => {
            lemma_replace_skip(t, from, to, 0, t.len() as int);
            assert(t.subrange(0, t.len() as int) + e =~= t);
        },
    }
}

// ─── Order and length ───────────────────────────────────────────────────────

proof fn lemma_codes(c: char, d: char)
    ensures
        c != d ==> c as u32 != d as u32,
{
}

/// The order of texts is a strict total order.
pub proof fn law_text_order(a: Seq<char>, b: Seq<char>, c: Seq<char>)
    ensures
        !text_lt(a, a),
        a != b ==> text_lt(a, b) || text_lt(b, a),
        !(text_lt(a, b) && text_lt(b, a)),
        text_lt(a, b) && text_lt(b, c) ==> text_lt(a, c),
        a.len() > 0 && b.len() > 0 && (a[0] as u32) < (b[0] as u32) ==> text_lt(a, b),
        a.len() < b.len() && a.is_prefix_of(b) ==> text_lt(a, b),
    decreases a.len() + b.len() + c.len(),
{
    if a.len() > 0 {
        let x = a.drop_first();
        let y = if b.len() > 0 {
            b.drop_first()
        } else {
            b
        };
        let z = if c.len() > 0 {
            c.drop_first()
        } else {
            c
        };
        law_text_order(x, y, z);
        if b.len() > 0 && a != b {
            if a[0] == b[0] {
                if x == y {
                    assert(a =~= seq![a[0]] + x);
                    assert(b =~= seq![b[0]] + y);
                    assert(false);
                }
                assert(text_lt(a, b) == text_lt(x, y));
                assert(text_lt(b, a) == text_lt(y, x));
            } else {
                lemma_codes(a[0], b[0]);
            }
        }
        if b.len() > 0 && a.is_prefix_of(b) {
            assert(a[0] == b[0]);
            assert(x.is_prefix_of(y));
        }
    } else if b.len() == 0 {
        assert(a =~= b);
    }
}

/// The bytes of a text are those of its parts, and a text of ASCII characters has as many bytes
/// as characters.
pub proof fn law_byte_length(a: Seq<char>, b: Seq<char>)
    ensures
        byte_len(a + b) == byte_len(a) + byte_len(b),
        (forall|i: int| 0 <= i < a.len() ==> (#[trigger] a[i] as u32) < 0x80) ==> byte_len(a) == a.len(),
        a.len() <= byte_len(a) <= 4 * a.len(),
    decreases a.len() + b.len(),
{
    if b.len() > 0 {
        law_byte_length(a, b.drop_last());
        assert((a + b).drop_last() =~= a + b.drop_last());
    } else {
        assert(a + b =~= a);
        if a.len() > 0 {
            law_byte_length(a.drop_last(), b);
        }
    }
}

/// Small letters stay, capital letters become small, and nothing else changes.
pub proof fn law_lower_case(t: Seq<char>, i: int)
    requires
        0 <= i < t.len(),
    ensures
        lower_all(t).len() == t.len(),
        'A' <= t[i] <= 'Z' ==> lower_all(t)[i] as u32 == t[i] as u32 + ('a' as u32 - 'A' as u32),
        !('A' <= t[i] <= 'Z') ==> lower_all(t)[i] == t[i],
        lower_all(lower_all(t)) == lower_all(t),
{
    assert(lower_all(lower_all(t)) =~= lower_all(t));
}

} // verus!
