//! Character-level text handling shared by every parser: the model of
//! `str::lines`, `str::split_whitespace`, `str::trim`, `str::find` and of the
//! unsigned integer parsing of `str::parse`, each with an executable
//! counterpart that is proved to follow it.
use vstd::prelude::*;

verus! {

// ───────────────────────────── Characters ─────────────────────────────

/// The Unicode `White_Space` property, which `char::is_whitespace` reports.
pub open spec fn is_ws(c: char) -> bool {
    ||| c == ' '
    ||| c == '\t'
    ||| c == '\n'
    ||| c == '\u{0B}'
    ||| c == '\u{0C}'
    ||| c == '\r'
    ||| c == '\u{85}'
    ||| c == '\u{A0}'
    ||| c == '\u{1680}'
    ||| ('\u{2000}' <= c && c <= '\u{200A}')
    ||| c == '\u{2028}'
    ||| c == '\u{2029}'
    ||| c == '\u{202F}'
    ||| c == '\u{205F}'
    ||| c == '\u{3000}'
}

pub open spec fn is_digit(c: char) -> bool {
    '0' <= c && c <= '9'
}

pub fn char_is_ws(c: char) -> (b: bool)
    ensures
        b == is_ws(c),
{
    c == ' ' || c == '\t' || c == '\n' || c == '\u{0B}' || c == '\u{0C}' || c == '\r' || c
        == '\u{85}' || c == '\u{A0}' || c == '\u{1680}' || ('\u{2000}' <= c && c <= '\u{200A}')
        || c == '\u{2028}' || c == '\u{2029}' || c == '\u{202F}' || c == '\u{205F}' || c
        == '\u{3000}'
}

pub fn char_is_digit(c: char) -> (b: bool)
    ensures
        b == is_digit(c),
{
    '0' <= c && c <= '9'
}

// ───────────────────────────── Conversions ─────────────────────────────

/// The characters of a string slice, in order.
pub fn chars_of(s: &str) -> (v: Vec<char>)
    ensures
        v@ == s@,
{
    let mut v: Vec<char> = Vec::new();
    for c in it: s.chars()
        invariant
            v@ == it.seq().take(it.index() as int),
            it.seq() == s@,
    {
        v.push(c);
    }
    v
}

/// `String::push`: the string afterwards is the old one with `c` appended.
#[verifier::external_body]
fn push_char(s: &mut String, c: char)
    ensures
        final(s)@ == old(s)@.push(c),
{
    s.push(c);
}

/// A `String` holding exactly the given characters.
pub fn string_of(v: &[char]) -> (s: String)
    ensures
        s@ == v@,
{
    let mut s = String::new();
    let mut i: usize = 0;
    while i < v.len()
        invariant
            i <= v@.len(),
            s@ == v@.take(i as int),
        decreases v@.len() - i,
    {
        push_char(&mut s, v[i]);
        i = i + 1;
        assert(s@ =~= v@.take(i as int));
    }
    assert(v@.take(v@.len() as int) =~= v@);
    s
}

/// A copy of `v[lo..hi]`.
pub fn copy_range(v: &[char], lo: usize, hi: usize) -> (r: Vec<char>)
    requires
        lo <= hi <= v@.len(),
    ensures
        r@ == v@.subrange(lo as int, hi as int),
{
    let mut r: Vec<char> = Vec::new();
    let mut i = lo;
    while i < hi
        invariant
            lo <= i <= hi <= v@.len(),
            r@ == v@.subrange(lo as int, i as int),
        decreases hi - i,
    {
        r.push(v[i]);
        i = i + 1;
        assert(r@ =~= v@.subrange(lo as int, i as int));
    }
    r
}

/// The views of a sequence of character vectors.
pub open spec fn views(v: Seq<Vec<char>>) -> Seq<Seq<char>> {
    v.map_values(|x: Vec<char>| x@)
}

/// The views of a sequence of strings.
pub open spec fn string_views(v: Seq<String>) -> Seq<Seq<char>> {
    v.map_values(|x: String| x@)
}

// ───────────────────────────── Comparisons ─────────────────────────────

pub fn chars_eq(a: &[char], b: &[char]) -> (r: bool)
    ensures
        r == (a@ == b@),
{
    if a.len() != b.len() {
        return false;
    }
    let mut i: usize = 0;
    while i < a.len()
        invariant
            a@.len() == b@.len(),
            i <= a@.len(),
            forall|j: int| 0 <= j < i ==> a@[j] == b@[j],
        decreases a@.len() - i,
    {
        if a[i] != b[i] {
            return false;
        }
        i = i + 1;
    }
    assert(a@ =~= b@);
    true
}

pub open spec fn has_prefix(s: Seq<char>, p: Seq<char>) -> bool {
    p.len() <= s.len() && s.take(p.len() as int) == p
}

pub fn starts_with(s: &[char], p: &[char]) -> (r: bool)
    ensures
        r == has_prefix(s@, p@),
{
    if p.len() > s.len() {
        return false;
    }
    let mut i: usize = 0;
    while i < p.len()
        invariant
            p@.len() <= s@.len(),
            i <= p@.len(),
            forall|j: int| 0 <= j < i ==> s@[j] == p@[j],
        decreases p@.len() - i,
    {
        if s[i] != p[i] {
            assert(s@.take(p@.len() as int)[i as int] != p@[i as int]);
            return false;
        }
        i = i + 1;
    }
    assert(s@.take(p@.len() as int) =~= p@);
    true
}

pub fn contains_char(s: &[char], c: char) -> (r: bool)
    ensures
        r == s@.contains(c),
{
    match find_char(s, c) {
        Some(_) => true,
        None => false,
    }
}

// ───────────────────────────── Searching ─────────────────────────────

/// The index of the first occurrence of `c` in `s`.
pub open spec fn first_index(s: Seq<char>, c: char) -> Option<int>
    decreases s.len(),
{
    if s.len() == 0 {
        None
    } else if s[0] == c {
        Some(0)
    } else {
        match first_index(s.drop_first(), c) {
            Some(i) => Some(i + 1),
            None => None,
        }
    }
}

pub proof fn lemma_first_index(s: Seq<char>, c: char)
    ensures
        first_index(s, c) matches Some(i) ==> 0 <= i < s.len() && s[i] == c && forall|j: int|
            0 <= j < i ==> s[j] != c,
        first_index(s, c) is None ==> forall|j: int| 0 <= j < s.len() ==> s[j] != c,
    decreases s.len(),
{
    if s.len() > 0 {
        lemma_first_index(s.drop_first(), c);
        if s[0] != c {
            assert forall|j: int| 0 < j < s.len() implies s[j] == s.drop_first()[j - 1] by {}
        }
    }
}

pub proof fn lemma_first_index_at(s: Seq<char>, c: char, i: int)
    requires
        0 <= i <= s.len(),
        forall|j: int| 0 <= j < i ==> s[j] != c,
        i == s.len() || s[i] == c,
    ensures
        first_index(s, c) == (if i == s.len() {
            None::<int>
        } else {
            Some(i)
        }),
{
    lemma_first_index(s, c);
    if i == s.len() {
        if let Some(k) = first_index(s, c) {
            assert(s[k] == c);
        }
    } else {
        match first_index(s, c) {
            Some(k) => {
                assert(k == i);
            },
            None => {
                assert(s[i] == c);
            },
        }
    }
}

/// `str::find` for a single character.
pub fn find_char(s: &[char], c: char) -> (r: Option<usize>)
    ensures
        r matches Some(i) ==> first_index(s@, c) == Some(i as int) && i < s@.len() && s@[i as int]
            == c,
        r is None ==> first_index(s@, c) is None,
        r is None <==> !s@.contains(c),
{
    let mut i: usize = 0;
    while i < s.len()
        invariant
            i <= s@.len(),
            forall|j: int| 0 <= j < i ==> s@[j] != c,
        decreases s@.len() - i,
    {
        if s[i] == c {
            proof {
                lemma_first_index_at(s@, c, i as int);
            }
            return Some(i);
        }
        i = i + 1;
    }
    proof {
        lemma_first_index_at(s@, c, i as int);
    }
    None
}

/// The index of the last occurrence of `c` in `s`.
pub open spec fn last_index(s: Seq<char>, c: char) -> Option<int>
    decreases s.len(),
{
    if s.len() == 0 {
        None
    } else if s.last() == c {
        Some(s.len() - 1)
    } else {
        last_index(s.drop_last(), c)
    }
}

pub proof fn lemma_last_index_at(s: Seq<char>, c: char, i: int)
    requires
        -1 <= i < s.len(),
        forall|j: int| i < j < s.len() ==> s[j] != c,
        i == -1 || s[i] == c,
    ensures
        last_index(s, c) == (if i == -1 {
            None::<int>
        } else {
            Some(i)
        }),
    decreases s.len(),
{
    if s.len() > 0 && i != s.len() - 1 {
        lemma_last_index_at(s.drop_last(), c, i);
    }
}

/// `str::rfind` for a single character.
pub fn rfind_char(s: &[char], c: char) -> (r: Option<usize>)
    ensures
        r matches Some(i) ==> last_index(s@, c) == Some(i as int) && i < s@.len() && s@[i as int]
            == c,
        r is None ==> last_index(s@, c) is None,
{
    let mut i: usize = s.len();
    while i > 0
        invariant
            i <= s@.len(),
            forall|j: int| i <= j < s@.len() ==> s@[j] != c,
        decreases i,
    {
        if s[i - 1] == c {
            proof {
                lemma_last_index_at(s@, c, i - 1);
            }
            return Some(i - 1);
        }
        i = i - 1;
    }
    proof {
        lemma_last_index_at(s@, c, -1);
    }
    None
}


// ───────────────────────────── Splitting ─────────────────────────────

/// `str::split(sep)`: the pieces between occurrences of `sep`, empty ones
/// included; there is always at least one piece.
pub open spec fn split_on(s: Seq<char>, sep: char) -> Seq<Seq<char>>
    decreases s.len(),
{
    if s.len() == 0 {
        seq![Seq::<char>::empty()]
    } else {
        let p = split_on(s.drop_last(), sep);
        if s.last() == sep {
            p.push(Seq::<char>::empty())
        } else {
            p.update(p.len() - 1, p.last().push(s.last()))
        }
    }
}

pub proof fn lemma_split_on_nonempty(s: Seq<char>, sep: char)
    ensures
        split_on(s, sep).len() >= 1,
    decreases s.len(),
{
    if s.len() > 0 {
        lemma_split_on_nonempty(s.drop_last(), sep);
    }
}

/// One line with a trailing carriage return removed.
pub open spec fn strip_cr(l: Seq<char>) -> Seq<char> {
    if l.len() > 0 && l.last() == '\r' {
        l.drop_last()
    } else {
        l
    }
}

/// `str::lines` (and `BufRead::lines` on the same text): lines end at `\n`,
/// a `\r` just before it is dropped, and a final line ending is optional.
pub open spec fn lines(s: Seq<char>) -> Seq<Seq<char>> {
    if s.len() == 0 {
        Seq::empty()
    } else {
        let p = split_on(s, '\n');
        let body = p.drop_last().map_values(|l: Seq<char>| strip_cr(l));
        if s.last() == '\n' {
            body
        } else {
            body.push(p.last())
        }
    }
}

proof fn lemma_split_on_concat(a: Seq<char>, b: Seq<char>, sep: char)
    requires
        a.len() > 0,
        a.last() == sep,
    ensures
        split_on(a + b, sep) == split_on(a, sep).drop_last() + split_on(b, sep),
    decreases b.len(),
{
    lemma_split_on_nonempty(a, sep);
    if b.len() == 0 {
        assert(a + b =~= a);
        assert(split_on(a, sep).drop_last() + split_on(b, sep) =~= split_on(a, sep));
    } else {
        lemma_split_on_concat(a, b.drop_last(), sep);
        lemma_split_on_nonempty(b.drop_last(), sep);
        assert((a + b).drop_last() =~= a + b.drop_last());
        assert((a + b).last() == b.last());
        let pa = split_on(a, sep).drop_last();
        let q = split_on(b.drop_last(), sep);
        if b.last() == sep {
            assert((pa + q).push(Seq::<char>::empty()) =~= pa + q.push(Seq::<char>::empty()));
        } else {
            let c = b.last();
            assert((pa + q).update((pa + q).len() - 1, (pa + q).last().push(c)) =~= pa + q.update(
                q.len() - 1,
                q.last().push(c),
            ));
        }
    }
}

/// Lines read from a text that follows a complete line (or nothing) are the
/// lines of the first text, then those of the second.
pub proof fn lemma_lines_concat(a: Seq<char>, b: Seq<char>)
    requires
        a.len() == 0 || a.last() == '\n',
    ensures
        lines(a + b) == lines(a) + lines(b),
{
    if a.len() == 0 {
        assert(a + b =~= b);
        assert(lines(a) + lines(b) =~= lines(b));
    } else if b.len() == 0 {
        assert(a + b =~= a);
        assert(lines(a) + lines(b) =~= lines(a));
    } else {
        lemma_split_on_concat(a, b, '\n');
        lemma_split_on_nonempty(b, '\n');
        let pa = split_on(a, '\n').drop_last();
        let pb = split_on(b, '\n');
        let f = |l: Seq<char>| strip_cr(l);
        assert((a + b).last() == b.last());
        assert((pa + pb).drop_last() =~= pa + pb.drop_last());
        assert((pa + pb.drop_last()).map_values(f) =~= pa.map_values(f) + pb.drop_last().map_values(
            f,
        ));
        assert((pa + pb).last() == pb.last());
        if b.last() == '\n' {
            assert(lines(a + b) =~= lines(a) + lines(b));
        } else {
            assert((pa.map_values(f) + pb.drop_last().map_values(f)).push(pb.last()) =~= pa.map_values(
                f,
            ) + pb.drop_last().map_values(f).push(pb.last()));
            assert(lines(a + b) =~= lines(a) + lines(b));
        }
    }
}

fn strip_cr_vec(v: Vec<char>) -> (r: Vec<char>)
    ensures
        r@ == strip_cr(v@),
{
    let mut v = v;
    if v.len() > 0 && v[v.len() - 1] == '\r' {
        v.pop();
    }
    v
}

/// The lines of `s`, as `str::lines` yields them.
pub fn lines_of(s: &[char]) -> (r: Vec<Vec<char>>)
    ensures
        views(r@) == lines(s@),
{
    let mut done: Vec<Vec<char>> = Vec::new();
    let mut cur: Vec<char> = Vec::new();
    let mut i: usize = 0;
    while i < s.len()
        invariant
            i <= s@.len(),
            ({
                let p = split_on(s@.take(i as int), '\n');
                &&& done@.len() + 1 == p.len()
                &&& forall|k: int| 0 <= k < done@.len() ==> done@[k]@ == strip_cr(p[k])
                &&& cur@ == p.last()
            }),
        decreases s@.len() - i,
    {
        let ghost old_take = s@.take(i as int);
        proof {
            lemma_split_on_nonempty(old_take, '\n');
        }
        let c = s[i];
        i = i + 1;
        assert(s@.take(i as int).drop_last() =~= old_take);
        if c == '\n' {
            let line = strip_cr_vec(cur);
            done.push(line);
            cur = Vec::new();
        } else {
            cur.push(c);
        }
    }
    assert(s@.take(s@.len() as int) =~= s@);
    proof {
        lemma_split_on_nonempty(s@, '\n');
    }
    if s.len() > 0 && s[s.len() - 1] != '\n' {
        done.push(cur);
    }
    assert(views(done@) =~= lines(s@));
    done
}

/// `str::split_whitespace`: the maximal runs of non-whitespace characters.
pub open spec fn words(s: Seq<char>) -> Seq<Seq<char>>
    decreases s.len(),
{
    if s.len() == 0 {
        Seq::empty()
    } else {
        let w = words(s.drop_last());
        let c = s.last();
        if is_ws(c) {
            w
        } else if s.len() >= 2 && !is_ws(s[s.len() - 2]) {
            w.update(w.len() - 1, w.last().push(c))
        } else {
            w.push(seq![c])
        }
    }
}

/// The whitespace-separated words of `s`.
pub fn words_of(s: &[char]) -> (r: Vec<Vec<char>>)
    ensures
        views(r@) == words(s@),
{
    let mut done: Vec<Vec<char>> = Vec::new();
    let mut cur: Vec<char> = Vec::new();
    let mut in_word = false;
    let mut i: usize = 0;
    while i < s.len()
        invariant
            i <= s@.len(),
            in_word == (i > 0 && !is_ws(s@[i - 1])),
            !in_word ==> views(done@) == words(s@.take(i as int)),
            in_word ==> views(done@).push(cur@) == words(s@.take(i as int)),
        decreases s@.len() - i,
    {
        let ghost old_take = s@.take(i as int);
        let c = s[i];
        i = i + 1;
        assert(s@.take(i as int).drop_last() =~= old_take);
        let ghost prev_done = done@;
        if char_is_ws(c) {
            if in_word {
                let w = cur;
                done.push(w);
                cur = Vec::new();
                assert(views(done@) =~= views(prev_done).push(w@));
            }
            in_word = false;
        } else {
            if in_word {
                let ghost prev_cur = cur@;
                cur.push(c);
                let ghost w = words(old_take);
                assert(w =~= views(done@).push(prev_cur));
                assert(w.update(w.len() - 1, w.last().push(c)) =~= views(done@).push(cur@));
            } else {
                cur = Vec::new();
                cur.push(c);
                assert(views(done@).push(cur@) =~= words(old_take).push(seq![c]));
            }
            in_word = true;
        }
    }
    assert(s@.take(s@.len() as int) =~= s@);
    if in_word {
        let ghost prev_done = done@;
        done.push(cur);
        assert(views(done@) =~= views(prev_done).push(cur@));
    }
    done
}


// ───────────────────────────── Trimming ─────────────────────────────

/// `str::trim_start`.
pub open spec fn trim_start(s: Seq<char>) -> Seq<char>
    decreases s.len(),
{
    if s.len() > 0 && is_ws(s[0]) {
        trim_start(s.drop_first())
    } else {
        s
    }
}

/// `str::trim_end`.
pub open spec fn trim_end(s: Seq<char>) -> Seq<char>
    decreases s.len(),
{
    if s.len() > 0 && is_ws(s.last()) {
        trim_end(s.drop_last())
    } else {
        s
    }
}

/// `str::trim`: whitespace removed at both ends.
pub open spec fn trim(s: Seq<char>) -> Seq<char> {
    trim_end(trim_start(s))
}

pub proof fn lemma_trim_start_skip(s: Seq<char>, i: int)
    requires
        0 <= i <= s.len(),
        forall|j: int| 0 <= j < i ==> is_ws(s[j]),
        i == s.len() || !is_ws(s[i]),
    ensures
        trim_start(s) == s.skip(i),
    decreases i,
{
    if i == 0 {
        assert(s.skip(0) =~= s);
    } else {
        assert forall|j: int| 0 <= j < i - 1 implies is_ws(s.drop_first()[j]) by {
            assert(s.drop_first()[j] == s[j + 1]);
        }
        lemma_trim_start_skip(s.drop_first(), i - 1);
        assert(s.drop_first().skip(i - 1) =~= s.skip(i));
    }
}

pub proof fn lemma_trim_end_take(s: Seq<char>, i: int)
    requires
        0 <= i <= s.len(),
        forall|j: int| i <= j < s.len() ==> is_ws(s[j]),
        i == 0 || !is_ws(s[i - 1]),
    ensures
        trim_end(s) == s.take(i),
    decreases s.len() - i,
{
    if i == s.len() {
        assert(s.take(i) =~= s);
    } else {
        lemma_trim_end_take(s.drop_last(), i);
        assert(s.drop_last().take(i) =~= s.take(i));
    }
}

/// The bounds `lo..hi` of `trim(v)` inside `v`.
pub fn trim_bounds(v: &[char]) -> (r: (usize, usize))
    ensures
        r.0 <= r.1 <= v@.len(),
        trim(v@) == v@.subrange(r.0 as int, r.1 as int),
        trim_start(v@) == v@.skip(r.0 as int),
{
    let mut lo: usize = 0;
    while lo < v.len() && char_is_ws(v[lo])
        invariant
            lo <= v@.len(),
            forall|j: int| 0 <= j < lo ==> is_ws(v@[j]),
        decreases v@.len() - lo,
    {
        lo = lo + 1;
    }
    proof {
        lemma_trim_start_skip(v@, lo as int);
    }
    let mut hi: usize = v.len();
    while hi > lo && char_is_ws(v[hi - 1])
        invariant
            lo <= hi <= v@.len(),
            forall|j: int| hi <= j < v@.len() ==> is_ws(v@[j]),
        decreases hi,
    {
        hi = hi - 1;
    }
    proof {
        let t = v@.skip(lo as int);
        let k = hi - lo;
        assert forall|j: int| k <= j < t.len() implies is_ws(t[j]) by {}
        lemma_trim_end_take(t, k as int);
        assert(t.take(k as int) =~= v@.subrange(lo as int, hi as int));
    }
    (lo, hi)
}

/// `trim(v)`, as a new vector.
pub fn trimmed(v: &[char]) -> (r: Vec<char>)
    ensures
        r@ == trim(v@),
{
    let (lo, hi) = trim_bounds(v);
    copy_range(v, lo, hi)
}

/// `str::trim_start_matches(c)`.
pub open spec fn strip_leading(s: Seq<char>, c: char) -> Seq<char>
    decreases s.len(),
{
    if s.len() > 0 && s[0] == c {
        strip_leading(s.drop_first(), c)
    } else {
        s
    }
}

/// `str::trim_end_matches(c)`.
pub open spec fn strip_trailing(s: Seq<char>, c: char) -> Seq<char>
    decreases s.len(),
{
    if s.len() > 0 && s.last() == c {
        strip_trailing(s.drop_last(), c)
    } else {
        s
    }
}

/// `str::trim_matches(c)`: every `c` removed at both ends.
pub open spec fn trim_matches(s: Seq<char>, c: char) -> Seq<char> {
    strip_trailing(strip_leading(s, c), c)
}

proof fn lemma_strip_leading_skip(s: Seq<char>, c: char, i: int)
    requires
        0 <= i <= s.len(),
        forall|j: int| 0 <= j < i ==> s[j] == c,
        i == s.len() || s[i] != c,
    ensures
        strip_leading(s, c) == s.skip(i),
    decreases i,
{
    if i == 0 {
        assert(s.skip(0) =~= s);
    } else {
        assert forall|j: int| 0 <= j < i - 1 implies s.drop_first()[j] == c by {
            assert(s.drop_first()[j] == s[j + 1]);
        }
        lemma_strip_leading_skip(s.drop_first(), c, i - 1);
        assert(s.drop_first().skip(i - 1) =~= s.skip(i));
    }
}

proof fn lemma_strip_trailing_take(s: Seq<char>, c: char, i: int)
    requires
        0 <= i <= s.len(),
        forall|j: int| i <= j < s.len() ==> s[j] == c,
        i == 0 || s[i - 1] != c,
    ensures
        strip_trailing(s, c) == s.take(i),
    decreases s.len() - i,
{
    if i == s.len() {
        assert(s.take(i) =~= s);
    } else {
        lemma_strip_trailing_take(s.drop_last(), c, i);
        assert(s.drop_last().take(i) =~= s.take(i));
    }
}

/// `trim_matches(v, c)`, as a new vector.
pub fn trim_char(v: &[char], c: char) -> (r: Vec<char>)
    ensures
        r@ == trim_matches(v@, c),
{
    let mut lo: usize = 0;
    while lo < v.len() && v[lo] == c
        invariant
            lo <= v@.len(),
            forall|j: int| 0 <= j < lo ==> v@[j] == c,
        decreases v@.len() - lo,
    {
        lo = lo + 1;
    }
    proof {
        lemma_strip_leading_skip(v@, c, lo as int);
    }
    let mut hi: usize = v.len();
    while hi > lo && v[hi - 1] == c
        invariant
            lo <= hi <= v@.len(),
            forall|j: int| hi <= j < v@.len() ==> v@[j] == c,
        decreases hi,
    {
        hi = hi - 1;
    }
    proof {
        let t = v@.skip(lo as int);
        let k = hi - lo;
        assert forall|j: int| k <= j < t.len() implies t[j] == c by {}
        lemma_strip_trailing_take(t, c, k as int);
        assert(t.take(k as int) =~= v@.subrange(lo as int, hi as int));
    }
    copy_range(v, lo, hi)
}

// ───────────────────────────── Unsigned integers ─────────────────────────────

pub open spec fn digit_value(c: char) -> nat {
    (c as int - '0' as int) as nat
}

pub open spec fn all_digits(s: Seq<char>) -> bool {
    forall|i: int| 0 <= i < s.len() ==> is_digit(#[trigger] s[i])
}

/// The number that a string of decimal digits denotes.
pub open spec fn digits_value(s: Seq<char>) -> nat
    decreases s.len(),
{
    if s.len() == 0 {
        0
    } else {
        digits_value(s.drop_last()) * 10 + digit_value(s.last())
    }
}

/// The digits after an optional leading `+`.
pub open spec fn unsigned_body(s: Seq<char>) -> Seq<char> {
    if s.len() > 0 && s[0] == '+' {
        s.drop_first()
    } else {
        s
    }
}

/// `str::parse` for an unsigned integer type whose largest value is `max`:
/// an optional `+`, then at least one ASCII digit and nothing else, and a
/// value no larger than `max`.
pub open spec fn parse_uint(s: Seq<char>, max: nat) -> Option<nat> {
    let d = unsigned_body(s);
    if d.len() > 0 && all_digits(d) && digits_value(d) <= max {
        Some(digits_value(d))
    } else {
        None
    }
}

/// `str::parse::<u64>`.
pub open spec fn parse_u64(s: Seq<char>) -> Option<u64> {
    match parse_uint(s, u64::MAX as nat) {
        Some(v) => Some(v as u64),
        None => None,
    }
}

/// `str::parse::<u32>`.
pub open spec fn parse_u32(s: Seq<char>) -> Option<u32> {
    match parse_uint(s, u32::MAX as nat) {
        Some(v) => Some(v as u32),
        None => None,
    }
}

/// `str::parse::<u64>().unwrap_or(0)`.
pub open spec fn u64_or_zero(s: Seq<char>) -> u64 {
    match parse_u64(s) {
        Some(v) => v,
        None => 0,
    }
}

proof fn lemma_digits_value_prefix(s: Seq<char>, k: int)
    requires
        0 <= k <= s.len(),
    ensures
        digits_value(s.take(k)) <= digits_value(s),
    decreases s.len(),
{
    if k == s.len() {
        assert(s.take(k) =~= s);
    } else {
        lemma_digits_value_prefix(s.drop_last(), k);
        assert(s.drop_last().take(k) =~= s.take(k));
    }
}

fn parse_digits_u64(d: &[char], start: usize) -> (r: Option<u64>)
    requires
        start <= d@.len(),
    ensures
        ({
            let b = d@.skip(start as int);
            r == if b.len() > 0 && all_digits(b) && digits_value(b) <= u64::MAX {
                Some(digits_value(b) as u64)
            } else {
                None::<u64>
            }
        }),
{
    let ghost b = d@.skip(start as int);
    if start == d.len() {
        return None;
    }
    let mut v: u64 = 0;
    let mut i: usize = start;
    while i < d.len()
        invariant
            start <= i <= d@.len(),
            b == d@.skip(start as int),
            all_digits(b.take(i - start)),
            v as nat == digits_value(b.take(i - start)),
        decreases d@.len() - i,
    {
        let c = d[i];
        let ghost k = i - start;
        assert(b[k] == c);
        if !char_is_digit(c) {
            assert(!all_digits(b));
            return None;
        }
        let dig = (c as u32 - '0' as u32) as u64;
        assert(b.take(k + 1).drop_last() =~= b.take(k));
        assert(b.take(k + 1).last() == c);
        match v.checked_mul(10) {
            Some(m) => match m.checked_add(dig) {
                Some(n) => {
                    v = n;
                },
                None => {
                    proof {
                        if all_digits(b) {
                            lemma_digits_value_prefix(b, k + 1);
                        }
                    }
                    return None;
                },
            },
            None => {
                proof {
                    if all_digits(b) {
                        lemma_digits_value_prefix(b, k + 1);
                    }
                }
                return None;
            },
        }
        i = i + 1;
        assert forall|j: int| 0 <= j < i - start implies is_digit(#[trigger] b.take(i - start)[j]) by {
            if j < k {
                assert(b.take(k)[j] == b.take(i - start)[j]);
            }
        }
    }
    assert(b.take(d@.len() - start) =~= b);
    Some(v)
}

/// `str::parse::<u64>()`, as a value.
pub fn parse_u64_of(s: &[char]) -> (r: Option<u64>)
    ensures
        r == parse_u64(s@),
{
    let start: usize = if s.len() > 0 && s[0] == '+' {
        1
    } else {
        0
    };
    assert(unsigned_body(s@) =~= s@.skip(start as int));
    parse_digits_u64(s, start)
}

/// `str::parse::<u32>()`, as a value.
pub fn parse_u32_of(s: &[char]) -> (r: Option<u32>)
    ensures
        r == parse_u32(s@),
{
    match parse_u64_of(s) {
        Some(v) => {
            if v <= u32::MAX as u64 {
                Some(v as u32)
            } else {
                None
            }
        },
        None => None,
    }
}

/// `str::parse::<u64>().unwrap_or(0)`, as a value.
pub fn u64_or_zero_of(s: &[char]) -> (r: u64)
    ensures
        r == u64_or_zero(s@),
{
    match parse_u64_of(s) {
        Some(v) => v,
        None => 0,
    }
}


// ───────────────────────────── Prefixes ─────────────────────────────

/// `str::strip_prefix`.
pub open spec fn strip_prefix(s: Seq<char>, p: Seq<char>) -> Option<Seq<char>> {
    if has_prefix(s, p) {
        Some(s.skip(p.len() as int))
    } else {
        None
    }
}

/// `strip_prefix(s, p)`, with the prefix given as a string literal.
pub fn strip_prefix_of(s: &[char], p: &str) -> (r: Option<Vec<char>>)
    ensures
        r matches Some(v) ==> strip_prefix(s@, p@) == Some(v@),
        r is None ==> strip_prefix(s@, p@) is None,
{
    let pv = chars_of(p);
    if starts_with(s, &pv) {
        Some(copy_range(s, pv.len(), s.len()))
    } else {
        None
    }
}

/// Whether `s` starts with the string literal `p`.
pub fn starts_with_str(s: &[char], p: &str) -> (r: bool)
    ensures
        r == has_prefix(s@, p@),
{
    let pv = chars_of(p);
    starts_with(s, &pv)
}

/// Whether `s` equals the string literal `p`.
pub fn eq_str(s: &[char], p: &str) -> (r: bool)
    ensures
        r == (s@ == p@),
{
    let pv = chars_of(p);
    chars_eq(s, &pv)
}


// ───────────────────────────── Distinct collections ─────────────────────────────

/// Whether `v` holds an element equal to `x`.
pub fn holds(v: &Vec<Vec<char>>, x: &[char]) -> (r: bool)
    ensures
        r == views(v@).contains(x@),
{
    let mut i: usize = 0;
    while i < v.len()
        invariant
            i <= v@.len(),
            forall|j: int| 0 <= j < i ==> v@[j]@ != x@,
        decreases v@.len() - i,
    {
        if chars_eq(&v[i], x) {
            assert(views(v@)[i as int] == x@);
            return true;
        }
        i = i + 1;
    }
    proof {
        if views(v@).contains(x@) {
            let k = choose|k: int| 0 <= k < views(v@).len() && views(v@)[k] == x@;
            assert(v@[k]@ == x@);
        }
    }
    false
}

/// Adds `x` to a duplicate-free collection, as `HashSet::insert` does.
pub fn insert_distinct(v: &mut Vec<Vec<char>>, x: Vec<char>)
    requires
        views(old(v)@).no_duplicates(),
    ensures
        views(final(v)@).no_duplicates(),
        views(final(v)@).to_set() == views(old(v)@).to_set().insert(x@),
{
    if holds(v, &x) {
        assert(views(v@).to_set().insert(x@) =~= views(v@).to_set());
    } else {
        let ghost prev = views(v@);
        let ghost xv = x@;
        v.push(x);
        assert(views(v@) =~= prev.push(xv));
        proof {
            prev.lemma_push_to_set_commute(xv);
        }
    }
}


// ───────────────────────────── Separated fields ─────────────────────────────

/// The pieces of `s` between occurrences of `sep`, as `str::split` yields them.
pub fn split_of(s: &[char], sep: char) -> (r: Vec<Vec<char>>)
    ensures
        views(r@) == split_on(s@, sep),
{
    let mut done: Vec<Vec<char>> = Vec::new();
    let mut cur: Vec<char> = Vec::new();
    let mut i: usize = 0;
    assert(views(done@).push(cur@) =~= split_on(s@.take(0), sep));
    while i < s.len()
        invariant
            i <= s@.len(),
            views(done@).push(cur@) == split_on(s@.take(i as int), sep),
        decreases s@.len() - i,
    {
        let ghost old_take = s@.take(i as int);
        let ghost prev_done = views(done@);
        let ghost prev_cur = cur@;
        let c = s[i];
        i = i + 1;
        assert(s@.take(i as int).drop_last() =~= old_take);
        if c == sep {
            let w = cur;
            done.push(w);
            cur = Vec::new();
            assert(views(done@).push(cur@) =~= prev_done.push(prev_cur).push(Seq::<char>::empty()));
        } else {
            cur.push(c);
            let ghost p = prev_done.push(prev_cur);
            assert(views(done@).push(cur@) =~= p.update(p.len() - 1, p.last().push(c)));
        }
    }
    assert(s@.take(s@.len() as int) =~= s@);
    let ghost prev_done = views(done@);
    done.push(cur);
    assert(views(done@) =~= prev_done.push(cur@));
    done
}

// ───────────────────────────── ASCII text ─────────────────────────────

/// Whether every character of `s` is ASCII.
pub open spec fn is_ascii(s: Seq<char>) -> bool {
    forall|i: int| 0 <= i < s.len() ==> (#[trigger] s[i] as u32) < 128
}

proof fn lemma_split_on_ascii(s: Seq<char>, sep: char)
    requires
        is_ascii(s),
    ensures
        forall|i: int| 0 <= i < split_on(s, sep).len() ==> is_ascii(#[trigger] split_on(s, sep)[i]),
    decreases s.len(),
{
    if s.len() > 0 {
        let d = s.drop_last();
        assert forall|i: int| 0 <= i < d.len() implies (#[trigger] d[i] as u32) < 128 by {
            assert(d[i] == s[i]);
        }
        lemma_split_on_ascii(d, sep);
        lemma_split_on_nonempty(d, sep);
        let p = split_on(d, sep);
        assert((s[s.len() - 1] as u32) < 128);
        if s.last() != sep {
            let w = p.last().push(s.last());
            assert(is_ascii(p[p.len() - 1]));
            assert forall|k: int| 0 <= k < w.len() implies (#[trigger] w[k] as u32) < 128 by {
                if k < p.last().len() {
                    assert(w[k] == p[p.len() - 1][k]);
                }
            }
            assert forall|i: int| 0 <= i < split_on(s, sep).len() implies is_ascii(
                #[trigger] split_on(s, sep)[i],
            ) by {
                if i < p.len() - 1 {
                    assert(split_on(s, sep)[i] == p[i]);
                }
            }
        } else {
            assert forall|i: int| 0 <= i < split_on(s, sep).len() implies is_ascii(
                #[trigger] split_on(s, sep)[i],
            ) by {
                if i < p.len() {
                    assert(split_on(s, sep)[i] == p[i]);
                }
            }
        }
    }
}

/// The lines of ASCII text are ASCII.
pub proof fn lemma_lines_ascii(s: Seq<char>)
    requires
        is_ascii(s),
    ensures
        forall|i: int| 0 <= i < lines(s).len() ==> is_ascii(#[trigger] lines(s)[i]),
{
    if s.len() > 0 {
        lemma_split_on_ascii(s, '\n');
        lemma_split_on_nonempty(s, '\n');
        let p = split_on(s, '\n');
        assert forall|i: int| 0 <= i < lines(s).len() implies is_ascii(#[trigger] lines(s)[i]) by {
            if i < p.len() - 1 {
                let l = p[i];
                assert(is_ascii(l));
                assert(lines(s)[i] == strip_cr(l));
                assert forall|k: int| 0 <= k < strip_cr(l).len() implies (#[trigger] strip_cr(l)[k] as u32)
                    < 128 by {
                    assert(strip_cr(l)[k] == l[k]);
                }
            } else {
                assert(lines(s)[i] == p[p.len() - 1]);
            }
        }
    }
}

/// Trimmed ASCII text is ASCII.
pub proof fn lemma_trim_ascii(s: Seq<char>)
    requires
        is_ascii(s),
    ensures
        is_ascii(trim(s)),
{
    lemma_trim_start_ascii(s);
    lemma_trim_end_ascii(trim_start(s));
}

proof fn lemma_trim_start_ascii(s: Seq<char>)
    requires
        is_ascii(s),
    ensures
        is_ascii(trim_start(s)),
    decreases s.len(),
{
    if s.len() > 0 && is_ws(s[0]) {
        let d = s.drop_first();
        assert forall|i: int| 0 <= i < d.len() implies (#[trigger] d[i] as u32) < 128 by {
            assert(d[i] == s[i + 1]);
        }
        lemma_trim_start_ascii(d);
    }
}

proof fn lemma_trim_end_ascii(s: Seq<char>)
    requires
        is_ascii(s),
    ensures
        is_ascii(trim_end(s)),
    decreases s.len(),
{
    if s.len() > 0 && is_ws(s.last()) {
        let d = s.drop_last();
        assert forall|i: int| 0 <= i < d.len() implies (#[trigger] d[i] as u32) < 128 by {
            assert(d[i] == s[i]);
        }
        lemma_trim_end_ascii(d);
    }
}

// ───────────────────────────── Joined fields ─────────────────────────────

/// Fields joined by single spaces.
pub open spec fn join_fields(fs: Seq<Seq<char>>) -> Seq<char>
    decreases fs.len(),
{
    if fs.len() == 0 {
        Seq::empty()
    } else if fs.len() == 1 {
        fs[0]
    } else {
        join_fields(fs.drop_last()) + seq![' '] + fs.last()
    }
}

/// A field: not empty, without whitespace or the character `c`.
pub open spec fn plain_field(w: Seq<char>, c: char) -> bool {
    w.len() > 0 && forall|i: int| 0 <= i < w.len() ==> !is_ws(#[trigger] w[i]) && w[i] != c
}

proof fn lemma_words_append_field(u: Seq<char>, w: Seq<char>, c: char)
    requires
        plain_field(w, c),
        u.len() == 0 || is_ws(u.last()),
    ensures
        words(u + w) == words(u).push(w),
    decreases w.len(),
{
    if w.len() == 1 {
        assert((u + w).drop_last() =~= u);
        assert(w =~= seq![w[0]]);
    } else {
        let v = w.drop_last();
        assert(plain_field(v, c)) by {
            assert forall|i: int| 0 <= i < v.len() implies !is_ws(#[trigger] v[i]) && v[i] != c by {
                assert(v[i] == w[i]);
            }
        }
        lemma_words_append_field(u, v, c);
        assert((u + w).drop_last() =~= u + v);
        assert((u + w).last() == w.last());
        assert((u + w)[(u + w).len() - 2] == w[w.len() - 2]);
        let p = words(u).push(v);
        assert(v.push(w.last()) =~= w);
        assert(p.update(p.len() - 1, p.last().push(w.last())) =~= words(u).push(w));
    }
}

/// Fields without whitespace joined by single spaces split back into those
/// fields; a character that no field holds, other than a space, does not
/// occur in the joined text, which begins and ends with a field's character.
pub proof fn lemma_join_fields(fs: Seq<Seq<char>>, c: char)
    requires
        c != ' ',
        forall|i: int| 0 <= i < fs.len() ==> plain_field(#[trigger] fs[i], c),
    ensures
        words(join_fields(fs)) == fs,
        forall|i: int| 0 <= i < join_fields(fs).len() ==> #[trigger] join_fields(fs)[i] != c,
        fs.len() > 0 ==> join_fields(fs).len() > 0 && join_fields(fs)[0] == fs[0][0]
            && join_fields(fs).last() == fs.last().last(),
    decreases fs.len(),
{
    if fs.len() == 1 {
        lemma_words_append_field(Seq::empty(), fs[0], c);
        assert(Seq::<char>::empty() + fs[0] =~= fs[0]);
        assert(seq![fs[0]] =~= fs);
        assert(plain_field(fs[0], c));
    } else if fs.len() > 1 {
        let d = fs.drop_last();
        assert forall|i: int| 0 <= i < d.len() implies plain_field(#[trigger] d[i], c) by {
            assert(d[i] == fs[i]);
        }
        lemma_join_fields(d, c);
        let u = join_fields(d) + seq![' '];
        assert(plain_field(fs[fs.len() - 1], c));
        assert(u.drop_last() =~= join_fields(d));
        assert(words(u) == words(join_fields(d)));
        lemma_words_append_field(u, fs.last(), c);
        assert(d.push(fs.last()) =~= fs);
        let j = join_fields(fs);
        assert forall|i: int| 0 <= i < j.len() implies #[trigger] j[i] != c by {
            if i < join_fields(d).len() {
                assert(j[i] == join_fields(d)[i]);
            } else if i > join_fields(d).len() {
                assert(j[i] == fs.last()[i - join_fields(d).len() - 1]);
            }
        }
        assert(j[0] == join_fields(d)[0]);
        assert(d[0] == fs[0]);
    }
}

} // verus!
