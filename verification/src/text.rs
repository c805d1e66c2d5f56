//! Text as sequences of characters.
//!
//! The printer and the presentation passes work on `Vec<char>`; the functions
//! here are the few searches, cuts and joins they are made of, each with the
//! sequence it stands for.

use vstd::prelude::*;

verus! {

/// Appending one character to an owned string (`String::push`) adds it at the end.
pub assume_specification[ String::push ](s: &mut String, c: char)
    ensures
        final(s)@ == old(s)@.push(c),
;

// ─── Conversions ────────────────────────────────────────────────────────────

/// The characters of `s`.
pub fn chars_of(s: &str) -> (r: Vec<char>)
    ensures
        r@ == s@,
{
    let mut r: Vec<char> = Vec::new();
    for c in it: s.chars()
        invariant
            it.seq() == s@,
            r@ == s@.take(it.index() as int),
    {
        r.push(c);
        assert(s@.take(it.index() + 1) =~= s@.take(it.index() as int).push(c));
    }
    assert(s@.take(s@.len() as int) =~= s@);
    r
}

/// The string with the characters `t`.
pub fn string_of(t: &Vec<char>) -> (r: String)
    ensures
        r@ == t@,
{
    let mut r = String::new();
    let mut i: usize = 0;
    while i < t.len()
        invariant
            i <= t@.len(),
            r@ == t@.take(i as int),
        decreases t@.len() - i,
    {
        r.push(t[i]);
        assert(t@.take(i + 1) =~= t@.take(i as int).push(t@[i as int]));
        i += 1;
    }
    assert(t@.take(t@.len() as int) =~= t@);
    r
}

/// A copy of `t`.
pub fn copy_text(t: &Vec<char>) -> (r: Vec<char>)
    ensures
        r@ == t@,
{
    slice_text(t, 0, t.len())
}

/// Characters `a..b` of `t`.
pub fn slice_text(t: &Vec<char>, a: usize, b: usize) -> (r: Vec<char>)
    requires
        a <= b <= t@.len(),
    ensures
        r@ == t@.subrange(a as int, b as int),
{
    let mut r: Vec<char> = Vec::new();
    let mut i: usize = a;
    while i < b
        invariant
            a <= i <= b <= t@.len(),
            r@ == t@.subrange(a as int, i as int),
        decreases b - i,
    {
        r.push(t[i]);
        assert(t@.subrange(a as int, i + 1) =~= t@.subrange(a as int, i as int).push(t@[i as int]));
        i += 1;
    }
    r
}

/// Appends `t` to `out`.
pub fn push_text(out: &mut Vec<char>, t: &Vec<char>)
    ensures
        final(out)@ == old(out)@ + t@,
{
    let ghost before = out@;
    let mut i: usize = 0;
    while i < t.len()
        invariant
            i <= t@.len(),
            out@ == before + t@.take(i as int),
        decreases t@.len() - i,
    {
        out.push(t[i]);
        assert(before + t@.take(i + 1) =~= (before + t@.take(i as int)).push(t@[i as int]));
        i += 1;
    }
    assert(t@.take(t@.len() as int) =~= t@);
}

/// Appends the literal `lit` to `out`.
pub fn push_lit(out: &mut Vec<char>, lit: &str)
    ensures
        final(out)@ == old(out)@ + lit@,
{
    let t = chars_of(lit);
    push_text(out, &t);
}

/// Appends one character; spelled as a one-element sum so that joined pieces line up.
pub fn push_char(out: &mut Vec<char>, c: char)
    ensures
        final(out)@ == old(out)@ + seq![c],
{
    out.push(c);
    assert(out@ =~= old(out)@ + seq![c]);
}

// ─── Lists of texts ─────────────────────────────────────────────────────────

/// The texts held by a list of character vectors.
pub open spec fn deep(v: Seq<Vec<char>>) -> Seq<Seq<char>> {
    Seq::new(v.len(), |i: int| v[i]@)
}

pub broadcast proof fn lemma_deep_push(v: Seq<Vec<char>>, x: Vec<char>)
    ensures
        #[trigger] deep(v.push(x)) == deep(v).push(x@),
{
    assert(deep(v.push(x)) =~= deep(v).push(x@));
}

pub proof fn lemma_deep_empty()
    ensures
        deep(Seq::<Vec<char>>::empty()) == Seq::<Seq<char>>::empty(),
{
    assert(deep(Seq::<Vec<char>>::empty()) =~= Seq::<Seq<char>>::empty());
}

/// Adds `t` to the list.
pub fn push_item(v: &mut Vec<Vec<char>>, t: Vec<char>)
    ensures
        deep(final(v)@) == deep(old(v)@).push(t@),
{
    v.push(t);
    proof {
        lemma_deep_push(old(v)@, t);
    }
}

/// A new, empty list.
pub fn new_items() -> (v: Vec<Vec<char>>)
    ensures
        deep(v@) == Seq::<Seq<char>>::empty(),
        v@.len() == 0,
{
    let v: Vec<Vec<char>> = Vec::new();
    proof {
        lemma_deep_empty();
    }
    v
}

/// `t` stands somewhere in the list.
pub fn has_item(v: &Vec<Vec<char>>, t: &Vec<char>) -> (r: bool)
    ensures
        r == deep(v@).contains(t@),
{
    let mut i: usize = 0;
    while i < v.len()
        invariant
            i <= v@.len(),
            forall|j: int| 0 <= j < i ==> deep(v@)[j] != t@,
        decreases v@.len() - i,
    {
        if same(&v[i], t) {
            assert(deep(v@)[i as int] == t@);
            return true;
        }
        i += 1;
    }
    false
}

// ─── Comparison and search ──────────────────────────────────────────────────

/// `a` and `b` hold the same characters.
pub fn same(a: &Vec<char>, b: &Vec<char>) -> (r: bool)
    ensures
        r == (a@ == b@),
{
    if a.len() != b.len() {
        return false;
    }
    let mut i: usize = 0;
    while i < a.len()
        invariant
            i <= a@.len(),
            a@.len() == b@.len(),
            forall|j: int| 0 <= j < i ==> a@[j] == b@[j],
        decreases a@.len() - i,
    {
        if a[i] != b[i] {
            assert(a@[i as int] != b@[i as int]);
            return false;
        }
        i += 1;
    }
    assert(a@ =~= b@);
    true
}

/// `t` is exactly the literal `lit`.
pub fn is_lit(t: &Vec<char>, lit: &str) -> (r: bool)
    ensures
        r == (t@ == lit@),
{
    let l = chars_of(lit);
    same(t, &l)
}

/// `needle` stands in `hay` from position `i` on.
pub open spec fn at(hay: Seq<char>, needle: Seq<char>, i: int) -> bool {
    &&& 0 <= i
    &&& i + needle.len() <= hay.len()
    &&& hay.subrange(i, i + needle.len()) == needle
}

pub fn is_at(hay: &Vec<char>, needle: &Vec<char>, i: usize) -> (r: bool)
    ensures
        r == at(hay@, needle@, i as int),
{
    if needle.len() > hay.len() || i > hay.len() - needle.len() {
        return false;
    }
    let mut k: usize = 0;
    while k < needle.len()
        invariant
            k <= needle@.len(),
            i + needle@.len() <= hay.len(),
            forall|j: int| 0 <= j < k ==> hay@[i + j] == needle@[j],
        decreases needle@.len() - k,
    {
        if hay[i + k] != needle[k] {
            assert(hay@.subrange(i as int, i + needle@.len())[k as int] != needle@[k as int]);
            return false;
        }
        k += 1;
    }
    assert(hay@.subrange(i as int, i + needle@.len()) =~= needle@);
    true
}

pub open spec fn starts(t: Seq<char>, lit: Seq<char>) -> bool {
    at(t, lit, 0)
}

pub fn starts_lit(t: &Vec<char>, lit: &str) -> (r: bool)
    ensures
        r == starts(t@, lit@),
{
    let l = chars_of(lit);
    is_at(t, &l, 0)
}

pub fn starts_text(t: &Vec<char>, l: &Vec<char>) -> (r: bool)
    ensures
        r == starts(t@, l@),
{
    is_at(t, l, 0)
}

pub open spec fn ends(t: Seq<char>, lit: Seq<char>) -> bool {
    lit.len() <= t.len() && at(t, lit, t.len() - lit.len())
}

pub fn ends_lit(t: &Vec<char>, lit: &str) -> (r: bool)
    ensures
        r == ends(t@, lit@),
{
    let l = chars_of(lit);
    l.len() <= t.len() && is_at(t, &l, t.len() - l.len())
}

/// First position at or after `i` where `needle` stands.
pub open spec fn find_from(hay: Seq<char>, needle: Seq<char>, i: int) -> Option<int>
    decreases hay.len() - i,
{
    if i < 0 || i + needle.len() > hay.len() {
        None
    } else if at(hay, needle, i) {
        Some(i)
    } else if i == hay.len() {
        None
    } else {
        find_from(hay, needle, i + 1)
    }
}

/// First position where `needle` stands.
pub open spec fn find(hay: Seq<char>, needle: Seq<char>) -> Option<int> {
    find_from(hay, needle, 0)
}

/// `needle` stands somewhere in `hay`.
pub open spec fn has(hay: Seq<char>, needle: Seq<char>) -> bool {
    find(hay, needle) is Some
}

/// `needle` does not occur in `hay`.
pub open spec fn lacks(hay: Seq<char>, needle: Seq<char>) -> bool {
    !(has(hay, needle))
}

/// The number in an optional index.
pub open spec fn idx(o: Option<usize>) -> Option<int> {
    match o {
        Some(i) => Some(i as int),
        None => None,
    }
}

/// What a search from `i` finds is the least position that holds the needle.
pub proof fn lemma_find_from(hay: Seq<char>, needle: Seq<char>, i: int)
    requires
        0 <= i,
    ensures
        match find_from(hay, needle, i) {
            Some(p) => i <= p && at(hay, needle, p) && forall|j: int|
                i <= j < p ==> !at(hay, needle, j),
            None => forall|j: int| i <= j ==> !at(hay, needle, j),
        },
    decreases hay.len() - i,
{
    if i + needle.len() > hay.len() || at(hay, needle, i) || i == hay.len() {
    } else {
        lemma_find_from(hay, needle, i + 1);
    }
}

pub fn find_text_from(hay: &Vec<char>, needle: &Vec<char>, start: usize) -> (r: Option<usize>)
    ensures
        idx(r) == find_from(hay@, needle@, start as int),
        r is Some ==> r->0 + needle@.len() <= hay@.len(),
{
    let mut i: usize = start;
    while needle.len() <= hay.len() && i <= hay.len() - needle.len()
        invariant
            find_from(hay@, needle@, i as int) == find_from(hay@, needle@, start as int),
            i <= hay@.len() + 1 || i == start,
        decreases hay@.len() + 1 - i,
    {
        if is_at(hay, needle, i) {
            return Some(i);
        }
        if i == hay.len() {
            return None;
        }
        i += 1;
    }
    None
}

pub fn find_text(hay: &Vec<char>, needle: &Vec<char>) -> (r: Option<usize>)
    ensures
        idx(r) == find(hay@, needle@),
        r is Some ==> r->0 + needle@.len() <= hay@.len(),
{
    find_text_from(hay, needle, 0)
}

pub fn find_lit(hay: &Vec<char>, lit: &str) -> (r: Option<usize>)
    ensures
        idx(r) == find(hay@, lit@),
        r is Some ==> r->0 + lit@.len() <= hay@.len(),
{
    let l = chars_of(lit);
    find_text_from(hay, &l, 0)
}

pub fn has_text(hay: &Vec<char>, needle: &Vec<char>) -> (r: bool)
    ensures
        r == has(hay@, needle@),
{
    find_text(hay, needle).is_some()
}

pub fn has_lit(hay: &Vec<char>, lit: &str) -> (r: bool)
    ensures
        r == has(hay@, lit@),
{
    find_lit(hay, lit).is_some()
}

/// First position at or after `i` whose character is one of `set`.
pub open spec fn find_any_from(t: Seq<char>, set: Seq<char>, i: int) -> Option<int>
    decreases t.len() - i,
{
    if i < 0 || i >= t.len() {
        None
    } else if set.contains(t[i]) {
        Some(i)
    } else {
        find_any_from(t, set, i + 1)
    }
}

pub open spec fn find_any(t: Seq<char>, set: Seq<char>) -> Option<int> {
    find_any_from(t, set, 0)
}

/// Last position before `n` whose character is one of `set`.
pub open spec fn rfind_any_before(t: Seq<char>, set: Seq<char>, n: int) -> Option<int>
    decreases n,
{
    if n <= 0 || n > t.len() {
        None
    } else if set.contains(t[n - 1]) {
        Some(n - 1)
    } else {
        rfind_any_before(t, set, n - 1)
    }
}

pub open spec fn rfind_any(t: Seq<char>, set: Seq<char>) -> Option<int> {
    rfind_any_before(t, set, t.len() as int)
}

/// `c` is one of the characters of `set`.
pub fn in_set(set: &Vec<char>, c: char) -> (r: bool)
    ensures
        r == set@.contains(c),
{
    let mut i: usize = 0;
    while i < set.len()
        invariant
            i <= set@.len(),
            forall|j: int| 0 <= j < i ==> set@[j] != c,
        decreases set@.len() - i,
    {
        if set[i] == c {
            return true;
        }
        i += 1;
    }
    false
}

pub fn find_any_lit(t: &Vec<char>, set: &str) -> (r: Option<usize>)
    ensures
        idx(r) == find_any(t@, set@),
        r is Some ==> r->0 < t@.len(),
{
    let s = chars_of(set);
    let mut i: usize = 0;
    while i < t.len()
        invariant
            i <= t@.len(),
            s@ == set@,
            find_any_from(t@, set@, i as int) == find_any_from(t@, set@, 0),
        decreases t@.len() - i,
    {
        if in_set(&s, t[i]) {
            return Some(i);
        }
        i += 1;
    }
    None
}

pub fn rfind_any_lit(t: &Vec<char>, set: &str) -> (r: Option<usize>)
    ensures
        idx(r) == rfind_any(t@, set@),
        r is Some ==> r->0 < t.len(),
{
    let s = chars_of(set);
    let mut n: usize = t.len();
    while n > 0
        invariant
            n <= t@.len(),
            s@ == set@,
            rfind_any_before(t@, set@, n as int) == rfind_any_before(t@, set@, t@.len() as int),
        decreases n,
    {
        if in_set(&s, t[n - 1]) {
            return Some(n - 1);
        }
        n -= 1;
    }
    None
}

// ─── Cutting ────────────────────────────────────────────────────────────────

/// Unicode white space.
pub open spec fn ws(c: char) -> bool {
    let u = c as u32;
    ||| 0x9 <= u <= 0xd
    ||| u == 0x20
    ||| u == 0x85
    ||| u == 0xa0
    ||| u == 0x1680
    ||| 0x2000 <= u <= 0x200a
    ||| u == 0x2028
    ||| u == 0x2029
    ||| u == 0x202f
    ||| u == 0x205f
    ||| u == 0x3000
}

pub fn is_ws(c: char) -> (r: bool)
    ensures
        r == ws(c),
{
    let u: u32 = c as u32;
    (0x9 <= u && u <= 0xd) || u == 0x20 || u == 0x85 || u == 0xa0 || u == 0x1680 || (0x2000 <= u
        && u <= 0x200a) || u == 0x2028 || u == 0x2029 || u == 0x202f || u == 0x205f || u == 0x3000
}

/// The part of `t` before position `n`.
pub open spec fn before(t: Seq<char>, n: int) -> Seq<char> {
    t.subrange(0, n)
}

/// The part of `t` from position `n` on.
pub open spec fn after(t: Seq<char>, n: int) -> Seq<char> {
    t.subrange(n, t.len() as int)
}

pub fn text_before(t: &Vec<char>, n: usize) -> (r: Vec<char>)
    requires
        n <= t@.len(),
    ensures
        r@ == before(t@, n as int),
{
    slice_text(t, 0, n)
}

pub fn text_after(t: &Vec<char>, n: usize) -> (r: Vec<char>)
    requires
        n <= t@.len(),
    ensures
        r@ == after(t@, n as int),
{
    slice_text(t, n, t.len())
}

/// How many leading characters, from `i` on, are white space.
pub open spec fn ws_end(t: Seq<char>, i: int) -> int
    decreases t.len() - i,
{
    if 0 <= i < t.len() && ws(t[i]) {
        ws_end(t, i + 1)
    } else {
        i
    }
}

/// The end of `t[..n]` without its trailing white space.
pub open spec fn ws_start(t: Seq<char>, n: int) -> int
    decreases n,
{
    if 0 < n <= t.len() && ws(t[n - 1]) {
        ws_start(t, n - 1)
    } else {
        n
    }
}

pub open spec fn trim_start(t: Seq<char>) -> Seq<char> {
    after(t, ws_end(t, 0))
}

pub open spec fn trim_end(t: Seq<char>) -> Seq<char> {
    before(t, ws_start(t, t.len() as int))
}

pub open spec fn trim(t: Seq<char>) -> Seq<char> {
    trim_end(trim_start(t))
}

/// The leading white space of `t`.
pub open spec fn indent(t: Seq<char>) -> Seq<char> {
    before(t, ws_end(t, 0))
}

pub fn ws_end_of(t: &Vec<char>, start: usize) -> (r: usize)
    requires
        start <= t@.len(),
    ensures
        r == ws_end(t@, start as int),
        start <= r <= t@.len(),
{
    let mut i: usize = start;
    while i < t.len() && is_ws(t[i])
        invariant
            start <= i <= t@.len(),
            ws_end(t@, i as int) == ws_end(t@, start as int),
        decreases t@.len() - i,
    {
        i += 1;
    }
    i
}

pub fn trim_start_text(t: &Vec<char>) -> (r: Vec<char>)
    ensures
        r@ == trim_start(t@),
        r@.len() <= t@.len(),
{
    let i = ws_end_of(t, 0);
    text_after(t, i)
}

pub fn trim_end_text(t: &Vec<char>) -> (r: Vec<char>)
    ensures
        r@ == trim_end(t@),
        r@.len() <= t@.len(),
{
    let mut n: usize = t.len();
    while n > 0 && is_ws(t[n - 1])
        invariant
            n <= t@.len(),
            ws_start(t@, n as int) == ws_start(t@, t@.len() as int),
        decreases n,
    {
        n -= 1;
    }
    text_before(t, n)
}

pub fn trim_text(t: &Vec<char>) -> (r: Vec<char>)
    ensures
        r@ == trim(t@),
        r@.len() <= t@.len(),
{
    let s = trim_start_text(t);
    trim_end_text(&s)
}

pub fn indent_text(t: &Vec<char>) -> (r: Vec<char>)
    ensures
        r@ == indent(t@),
{
    let i = ws_end_of(t, 0);
    text_before(t, i)
}

/// First position at or after `i` whose character is not one of `set`.
pub open spec fn set_end(t: Seq<char>, set: Seq<char>, i: int) -> int
    decreases t.len() - i,
{
    if 0 <= i < t.len() && set.contains(t[i]) {
        set_end(t, set, i + 1)
    } else {
        i
    }
}

/// The end of `t[..n]` without trailing characters of `set`.
pub open spec fn set_start(t: Seq<char>, set: Seq<char>, n: int) -> int
    decreases n,
{
    if 0 < n <= t.len() && set.contains(t[n - 1]) {
        set_start(t, set, n - 1)
    } else {
        n
    }
}

/// `t` without its leading characters of `set`.
pub open spec fn strip_start(t: Seq<char>, set: Seq<char>) -> Seq<char> {
    after(t, set_end(t, set, 0))
}

/// `t` without its trailing characters of `set`.
pub open spec fn strip_end(t: Seq<char>, set: Seq<char>) -> Seq<char> {
    before(t, set_start(t, set, t.len() as int))
}

pub fn strip_start_lit(t: &Vec<char>, set: &str) -> (r: Vec<char>)
    ensures
        r@ == strip_start(t@, set@),
{
    let s = chars_of(set);
    let mut i: usize = 0;
    while i < t.len() && in_set(&s, t[i])
        invariant
            i <= t@.len(),
            s@ == set@,
            set_end(t@, set@, i as int) == set_end(t@, set@, 0),
        decreases t@.len() - i,
    {
        i += 1;
    }
    text_after(t, i)
}

pub fn strip_end_lit(t: &Vec<char>, set: &str) -> (r: Vec<char>)
    ensures
        r@ == strip_end(t@, set@),
{
    let s = chars_of(set);
    let mut n: usize = t.len();
    while n > 0 && in_set(&s, t[n - 1])
        invariant
            n <= t@.len(),
            s@ == set@,
            set_start(t@, set@, n as int) == set_start(t@, set@, t@.len() as int),
        decreases n,
    {
        n -= 1;
    }
    text_before(t, n)
}

/// `t` without every leading repetition of `word`.
pub open spec fn drop_words(t: Seq<char>, word: Seq<char>) -> Seq<char>
    decreases t.len(),
{
    if word.len() > 0 && starts(t, word) {
        drop_words(after(t, word.len() as int), word)
    } else {
        t
    }
}

pub fn drop_words_lit(t: &Vec<char>, word: &str) -> (r: Vec<char>)
    ensures
        r@ == drop_words(t@, word@),
{
    let w = chars_of(word);
    let mut cur = copy_text(t);
    while w.len() > 0 && is_at(&cur, &w, 0)
        invariant
            w@ == word@,
            drop_words(cur@, word@) == drop_words(t@, word@),
        decreases cur@.len(),
    {
        cur = text_after(&cur, w.len());
    }
    cur
}

/// `t` without the prefix `p`, if it has it.
pub open spec fn cut_prefix(t: Seq<char>, p: Seq<char>) -> Option<Seq<char>> {
    if starts(t, p) {
        Some(after(t, p.len() as int))
    } else {
        None
    }
}

/// `t` without the suffix `p`, if it has it.
pub open spec fn cut_suffix(t: Seq<char>, p: Seq<char>) -> Option<Seq<char>> {
    if ends(t, p) {
        Some(before(t, t.len() - p.len()))
    } else {
        None
    }
}

/// The text in an optional result.
pub open spec fn opt_text(o: Option<Vec<char>>) -> Option<Seq<char>> {
    match o {
        Some(v) => Some(v@),
        None => None,
    }
}

pub fn cut_prefix_lit(t: &Vec<char>, p: &str) -> (r: Option<Vec<char>>)
    ensures
        opt_text(r) == cut_prefix(t@, p@),
{
    let l = chars_of(p);
    if is_at(t, &l, 0) {
        Some(text_after(t, l.len()))
    } else {
        None
    }
}

pub fn cut_suffix_lit(t: &Vec<char>, p: &str) -> (r: Option<Vec<char>>)
    ensures
        opt_text(r) == cut_suffix(t@, p@),
{
    let l = chars_of(p);
    if l.len() <= t.len() && is_at(t, &l, t.len() - l.len()) {
        Some(text_before(t, t.len() - l.len()))
    } else {
        None
    }
}

/// The part of `t` before the first character of `set` (all of `t` if there is none).
pub open spec fn first_piece(t: Seq<char>, set: Seq<char>) -> Seq<char> {
    match find_any(t, set) {
        Some(i) => before(t, i),
        None => t,
    }
}

/// The part of `t` after the last character of `set` (all of `t` if there is none).
pub open spec fn last_piece(t: Seq<char>, set: Seq<char>) -> Seq<char> {
    match rfind_any(t, set) {
        Some(i) => after(t, i + 1),
        None => t,
    }
}

pub fn first_piece_lit(t: &Vec<char>, set: &str) -> (r: Vec<char>)
    ensures
        r@ == first_piece(t@, set@),
{
    match find_any_lit(t, set) {
        Some(i) => text_before(t, i),
        None => copy_text(t),
    }
}

pub fn last_piece_lit(t: &Vec<char>, set: &str) -> (r: Vec<char>)
    ensures
        r@ == last_piece(t@, set@),
{
    match rfind_any_lit(t, set) {
        Some(i) => text_after(t, i + 1),
        None => copy_text(t),
    }
}

} // verus!
