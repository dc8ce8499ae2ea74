//! Character-level text operations used by the output pipeline, each stated
//! over `Seq<char>`.

use vstd::prelude::*;
use vstd::std_specs::iter::IteratorSpec;

verus! {

/// Whether `c` has the Unicode `White_Space` property (what
/// `char::is_whitespace` and the `\s` class test).
pub open spec fn is_ws(c: char) -> bool {
    ('\u{9}' <= c && c <= '\u{d}') || c == ' ' || c == '\u{85}' || c == '\u{a0}' || c == '\u{1680}'
        || ('\u{2000}' <= c && c <= '\u{200a}') || c == '\u{2028}' || c == '\u{2029}'
        || c == '\u{202f}' || c == '\u{205f}' || c == '\u{3000}'
}

/// `s` without its trailing whitespace.
pub open spec fn trim_end(s: Seq<char>) -> Seq<char>
    decreases s.len(),
{
    if s.len() > 0 && is_ws(s.last()) {
        trim_end(s.drop_last())
    } else {
        s
    }
}

/// Index of the last `'\n'` in `s`, or -1 when there is none.
pub open spec fn last_newline(s: Seq<char>) -> int
    decreases s.len(),
{
    if s.len() == 0 {
        -1
    } else if s.last() == '\n' {
        s.len() - 1
    } else {
        last_newline(s.drop_last())
    }
}

/// Every `'\n'`-separated line of `s` with its trailing whitespace removed;
/// the separators themselves are kept.
pub open spec fn trim_lines(s: Seq<char>) -> Seq<char>
    decreases s.len(),
{
    let k = last_newline(s);
    if 0 <= k < s.len() {
        trim_lines(s.take(k)) + seq!['\n'] + trim_end(s.skip(k + 1))
    } else {
        trim_end(s)
    }
}

/// `s` with each `"\r\n"` and then each remaining `'\r'` turned into `'\n'`.
pub open spec fn normalize_newlines(s: Seq<char>) -> Seq<char>
    decreases s.len(),
{
    if s.len() == 0 {
        s
    } else if s.len() >= 2 && s[0] == '\r' && s[1] == '\n' {
        seq!['\n'] + normalize_newlines(s.skip(2))
    } else if s[0] == '\r' {
        seq!['\n'] + normalize_newlines(s.skip(1))
    } else {
        seq![s[0]] + normalize_newlines(s.skip(1))
    }
}

/// Whether `w` occurs in `s` at index `i`.
pub open spec fn occurs_at(s: Seq<char>, w: Seq<char>, i: int) -> bool {
    0 <= i && i + w.len() <= s.len() && s.subrange(i, i + w.len()) == w
}

/// Whether `w` occurs anywhere in `s`.
pub open spec fn contains_seq(s: Seq<char>, w: Seq<char>) -> bool {
    exists|i: int| occurs_at(s, w, i)
}

/// How many times `c` occurs in `s`.
pub open spec fn count_char(s: Seq<char>, c: char) -> nat
    decreases s.len(),
{
    if s.len() == 0 {
        0
    } else {
        count_char(s.drop_last(), c) + if s.last() == c { 1nat } else { 0nat }
    }
}

/// Counting a character over a concatenation adds up.
pub proof fn lemma_count_char_concat(a: Seq<char>, b: Seq<char>, c: char)
    ensures
        count_char(a + b, c) == count_char(a, c) + count_char(b, c),
    decreases b.len(),
{
    if b.len() == 0 {
        assert(a + b == a);
    } else {
        assert((a + b).drop_last() == a + b.drop_last());
        lemma_count_char_concat(a, b.drop_last(), c);
    }
}

/// A character that stands in `s` is counted at least once.
pub proof fn lemma_count_char_present(s: Seq<char>, c: char, i: int)
    requires
        0 <= i < s.len(),
        s[i] == c,
    ensures
        count_char(s, c) > 0,
    decreases s.len(),
{
    if i < s.len() - 1 {
        assert(s.drop_last()[i] == c);
        lemma_count_char_present(s.drop_last(), c, i);
    }
}

/// A character that stands nowhere in `s` is counted zero times.
pub proof fn lemma_count_char_absent(s: Seq<char>, c: char)
    requires
        forall|i: int| 0 <= i < s.len() ==> s[i] != c,
    ensures
        count_char(s, c) == 0,
    decreases s.len(),
{
    if s.len() > 0 {
        lemma_count_char_absent(s.drop_last(), c);
    }
}

/// Whether `c` stands nowhere in `s`.
pub open spec fn absent(s: Seq<char>, c: char) -> bool {
    forall|i: int| 0 <= i < s.len() ==> #[trigger] s[i] != c
}

/// Normalised text holds no carriage return.
pub proof fn lemma_normalize_no_cr(s: Seq<char>)
    ensures
        absent(normalize_newlines(s), '\r'),
    decreases s.len(),
{
    if s.len() > 0 {
        let n: int = if s.len() >= 2 && s[0] == '\r' && s[1] == '\n' { 2 } else { 1 };
        lemma_normalize_no_cr(s.skip(n));
        let t = normalize_newlines(s);
        let rest = normalize_newlines(s.skip(n));
        assert forall|i: int| 0 <= i < t.len() implies #[trigger] t[i] != '\r' by {
            if i > 0 {
                assert(t[i] == rest[i - 1]);
            }
        }
    }
}

/// Text with no carriage return is already normalised.
pub proof fn lemma_normalize_fixed(s: Seq<char>)
    requires
        absent(s, '\r'),
    ensures
        normalize_newlines(s) == s,
    decreases s.len(),
{
    if s.len() > 0 {
        assert(s[0] != '\r');
        assert forall|i: int| 0 <= i < s.skip(1).len() implies #[trigger] s.skip(1)[i] != '\r' by {
            assert(s.skip(1)[i] == s[i + 1]);
        }
        lemma_normalize_fixed(s.skip(1));
        assert(s == seq![s[0]] + s.skip(1));
    }
}

/// Trimming keeps a prefix, and trimming twice changes nothing more.
pub proof fn lemma_trim_end_shape(s: Seq<char>)
    ensures
        trim_end(s).len() <= s.len(),
        trim_end(s) == s.take(trim_end(s).len() as int),
        trim_end(trim_end(s)) == trim_end(s),
    decreases s.len(),
{
    if s.len() > 0 && is_ws(s.last()) {
        lemma_trim_end_shape(s.drop_last());
        assert(s.drop_last().take(trim_end(s).len() as int) == s.take(trim_end(s).len() as int));
    } else {
        assert(s.take(s.len() as int) == s);
    }
}

/// Where the last newline stands, and that none follows it.
pub proof fn lemma_last_newline_shape(s: Seq<char>)
    ensures
        -1 <= last_newline(s) < s.len(),
        last_newline(s) >= 0 ==> s[last_newline(s)] == '\n',
        forall|j: int| last_newline(s) < j < s.len() ==> #[trigger] s[j] != '\n',
    decreases s.len(),
{
    if s.len() > 0 && s.last() != '\n' {
        lemma_last_newline_shape(s.drop_last());
        assert forall|j: int| last_newline(s) < j < s.len() implies #[trigger] s[j] != '\n' by {
            if j < s.len() - 1 {
                assert(s.drop_last()[j] == s[j]);
            }
        }
    }
}

proof fn lemma_last_newline_join(p: Seq<char>, q: Seq<char>)
    requires
        absent(q, '\n'),
    ensures
        last_newline(p + seq!['\n'] + q) == p.len(),
    decreases q.len(),
{
    let w = p + seq!['\n'] + q;
    if q.len() == 0 {
        assert(w.last() == '\n');
    } else {
        assert(w.last() == q.last());
        assert(w.drop_last() == p + seq!['\n'] + q.drop_last());
        lemma_last_newline_join(p, q.drop_last());
    }
}

/// Trimming lines adds no character but newlines.
pub proof fn lemma_trim_lines_absent(s: Seq<char>, c: char)
    requires
        c != '\n',
        absent(s, c),
    ensures
        absent(trim_lines(s), c),
    decreases s.len(),
{
    let k = last_newline(s);
    lemma_last_newline_shape(s);
    if 0 <= k < s.len() {
        lemma_trim_lines_absent(s.take(k), c);
        let b = s.skip(k + 1);
        lemma_trim_end_shape(b);
        let a = trim_lines(s.take(k));
        let t = trim_end(b);
        assert forall|i: int| 0 <= i < (a + seq!['\n'] + t).len() implies #[trigger] (a + seq!['\n'] + t)[i] != c by {
            if i > a.len() {
                assert(t[i - a.len() - 1] == b[i - a.len() - 1]);
            }
        }
    } else {
        lemma_trim_end_shape(s);
        assert forall|i: int| 0 <= i < trim_end(s).len() implies #[trigger] trim_end(s)[i] != c by {
            assert(trim_end(s)[i] == s[i]);
        }
    }
}

/// Trimming lines is idempotent.
pub proof fn lemma_trim_lines_idempotent(s: Seq<char>)
    ensures
        trim_lines(trim_lines(s)) == trim_lines(s),
    decreases s.len(),
{
    let k = last_newline(s);
    lemma_last_newline_shape(s);
    if 0 <= k < s.len() {
        let b = s.skip(k + 1);
        lemma_trim_end_shape(b);
        let a = trim_lines(s.take(k));
        let t = trim_end(b);
        assert forall|i: int| 0 <= i < t.len() implies #[trigger] t[i] != '\n' by {
            assert(t[i] == b[i]);
            assert(b[i] == s[k + 1 + i]);
        }
        lemma_last_newline_join(a, t);
        let w = a + seq!['\n'] + t;
        assert(w.take(a.len() as int) == a);
        assert(w.skip(a.len() as int + 1) == t);
        lemma_trim_lines_idempotent(s.take(k));
    } else {
        lemma_trim_end_shape(s);
        let t = trim_end(s);
        assert forall|i: int| 0 <= i < t.len() implies #[trigger] t[i] != '\n' by {
            assert(t[i] == s[i]);
        }
        lemma_last_newline_join_none(t);
    }
}

proof fn lemma_last_newline_join_none(q: Seq<char>)
    requires
        absent(q, '\n'),
    ensures
        last_newline(q) == -1,
    decreases q.len(),
{
    if q.len() > 0 {
        assert(q.last() != '\n');
        assert forall|i: int| 0 <= i < q.drop_last().len() implies #[trigger] q.drop_last()[i] != '\n' by {
            assert(q.drop_last()[i] == q[i]);
        }
        lemma_last_newline_join_none(q.drop_last());
    }
}

/// The characters of `s`, in order.
pub fn chars_of(s: &str) -> (r: Vec<char>)
    ensures
        r@ == s@,
{
    broadcast use vstd::string::axiom_spec_iter, vstd::string::next_postcondition;

    let mut out: Vec<char> = Vec::new();
    let mut it = s.chars();
    loop
        invariant
            it.obeys_prophetic_iter_laws(),
            it.decrease() is Some,
            out@ + it.remaining() == s@,
        ensures
            out@ == s@,
        decreases it.decrease()->0,
    {
        let ghost before = it.remaining();
        match it.next() {
            Some(c) => {
                out.push(c);
            },
            None => {
                assert(before =~= Seq::<char>::empty());
                assert(out@ + before == out@);
                break;
            },
        }
        assert(out@ + it.remaining() == s@);
    }
    out
}

/// Relies on `String::from_iter` over chars: the string of those characters.
#[verifier::external_body]
pub(crate) fn string_from(v: &[char]) -> (r: String)
    ensures
        r@ == v@,
{
    v.iter().collect()
}

/// Whether `c` is whitespace.
pub fn is_space(c: char) -> (r: bool)
    ensures
        r == is_ws(c),
{
    ('\u{9}' <= c && c <= '\u{d}') || c == ' ' || c == '\u{85}' || c == '\u{a0}' || c == '\u{1680}'
        || ('\u{2000}' <= c && c <= '\u{200a}') || c == '\u{2028}' || c == '\u{2029}'
        || c == '\u{202f}' || c == '\u{205f}' || c == '\u{3000}'
}


/// `s` with its line terminators normalised to `'\n'`.
pub fn normalize(s: &[char]) -> (r: Vec<char>)
    ensures
        r@ == normalize_newlines(s@),
{
    let n = s.len();
    let mut out: Vec<char> = Vec::new();
    let mut i: usize = 0;
    assert(s@.subrange(0, n as int) == s@);
    assert(out@ + normalize_newlines(s@) == normalize_newlines(s@));
    while i < n
        invariant
            n == s@.len(),
            i <= n,
            out@ + normalize_newlines(s@.subrange(i as int, n as int)) == normalize_newlines(s@),
        decreases n - i,
    {
        let ghost rest = s@.subrange(i as int, n as int);
        if s[i] == '\r' && i + 1 < n && s[i + 1] == '\n' {
            assert(rest.skip(2) == s@.subrange(i + 2, n as int));
            out.push('\n');
            i = i + 2;
        } else {
            assert(rest.skip(1) == s@.subrange(i + 1, n as int));
            if s[i] == '\r' {
                out.push('\n');
            } else {
                out.push(s[i]);
            }
            i = i + 1;
        }
        assert(out@ + normalize_newlines(s@.subrange(i as int, n as int)) == normalize_newlines(s@));
    }
    assert(s@.subrange(n as int, n as int).len() == 0);
    out
}

/// What stands in `trim_lines(s)` before the line that starts at `start`.
pub open spec fn lines_before(s: Seq<char>, start: int) -> Seq<char> {
    if start == 0 {
        Seq::empty()
    } else {
        trim_lines(s.take(start - 1)) + seq!['\n']
    }
}

proof fn lemma_last_newline_push(s: Seq<char>, i: int)
    requires
        0 <= i < s.len(),
    ensures
        last_newline(s.take(i + 1)) == if s[i] == '\n' { i } else { last_newline(s.take(i)) },
{
    assert(s.take(i + 1).drop_last() == s.take(i));
}

proof fn lemma_trim_end_push(s: Seq<char>, c: char)
    ensures
        trim_end(s.push(c)) == if is_ws(c) { trim_end(s) } else { s.push(c) },
{
    assert(s.push(c).drop_last() == s);
}

/// Each line of `s` with its trailing whitespace removed.
pub fn trim_line_ends(s: &[char]) -> (r: Vec<char>)
    ensures
        r@ == trim_lines(s@),
{
    let n = s.len();
    let mut out: Vec<char> = Vec::new();
    let mut pending: Vec<char> = Vec::new();
    let mut start: usize = 0;
    let mut i: usize = 0;
    while i < n
        invariant
            n == s@.len(),
            start <= i <= n,
            last_newline(s@.take(i as int)) == start - 1,
            out@ == lines_before(s@, start as int) + trim_end(s@.subrange(start as int, i as int)),
            trim_end(s@.subrange(start as int, i as int)) + pending@ == s@.subrange(start as int, i as int),
        decreases n - i,
    {
        let c = s[i];
        let ghost seg = s@.subrange(start as int, i as int);
        proof {
            lemma_last_newline_push(s@, i as int);
            lemma_trim_end_push(seg, c);
            assert(s@.subrange(start as int, i + 1) == seg.push(c));
        }
        if c == '\n' {
            proof {
                let t = s@.take(i as int);
                if start > 0 {
                    assert(t.take(start - 1) == s@.take(start - 1));
                }
                assert(t.skip(start as int) == seg);
                assert(trim_lines(t) == lines_before(s@, start as int) + trim_end(seg));
            }
            out.push('\n');
            pending = Vec::new();
            start = i + 1;
            assert(s@.subrange(start as int, start as int) == Seq::<char>::empty());
        } else if is_space(c) {
            pending.push(c);
        } else {
            let mut k: usize = 0;
            while k < pending.len()
                invariant
                    k <= pending@.len(),
                    out@ == lines_before(s@, start as int) + trim_end(seg) + pending@.take(k as int),
                decreases pending@.len() - k,
            {
                out.push(pending[k]);
                k = k + 1;
                assert(pending@.take(k as int) == pending@.take(k - 1).push(pending@[k - 1]));
            }
            assert(pending@.take(k as int) == pending@);
            out.push(c);
            pending = Vec::new();
        }
        i = i + 1;
    }
    proof {
        let t = s@.take(n as int);
        assert(t == s@);
        if start > 0 {
            assert(t.take(start - 1) == s@.take(start - 1));
        }
        assert(t.skip(start as int) == s@.subrange(start as int, n as int));
    }
    out
}

/// Whether `w` occurs in `s`.
pub fn contains_word(s: &[char], w: &[char]) -> (r: bool)
    ensures
        r == contains_seq(s@, w@),
{
    if w.len() > s.len() {
        assert forall|i: int| !occurs_at(s@, w@, i) by {}
        return false;
    }
    if w.len() == 0 {
        assert(s@.subrange(0, 0) == w@);
        assert(occurs_at(s@, w@, 0));
        return true;
    }
    let last = s.len() - w.len();
    let mut i: usize = 0;
    while i <= last
        invariant
            last + w@.len() == s@.len(),
            w@.len() > 0,
            s@.len() <= usize::MAX,
            forall|j: int| 0 <= j < i ==> !occurs_at(s@, w@, j),
        decreases last + 1 - i,
    {
        let mut k: usize = 0;
        let mut same = true;
        while k < w.len()
            invariant
                i <= last,
                last + w@.len() == s@.len(),
                s@.len() <= usize::MAX,
                k <= w@.len(),
                same == (forall|m: int| 0 <= m < k ==> s@[i + m] == w@[m]),
            decreases w@.len() - k,
        {
            if s[i + k] != w[k] {
                same = false;
            }
            k = k + 1;
        }
        if same {
            assert(s@.subrange(i as int, i + w@.len()) == w@);
            assert(occurs_at(s@, w@, i as int));
            return true;
        }
        assert(!occurs_at(s@, w@, i as int)) by {
            if s@.subrange(i as int, i + w@.len()) == w@ {
                assert forall|m: int| 0 <= m < w@.len() implies s@[i + m] == w@[m] by {
                    assert(s@.subrange(i as int, i + w@.len())[m] == s@[i + m]);
                }
            }
        }
        i = i + 1;
    }
    assert forall|j: int| !occurs_at(s@, w@, j) by {
        if 0 <= j && j + w@.len() <= s@.len() {
            assert(j < i);
        }
    }
    false
}

/// How many times `c` occurs in `s`.
pub fn count_of(s: &[char], c: char) -> (r: usize)
    ensures
        r == count_char(s@, c),
{
    let mut count: usize = 0;
    let mut i: usize = 0;
    while i < s.len()
        invariant
            i <= s@.len(),
            count == count_char(s@.take(i as int), c),
            count <= i,
        decreases s@.len() - i,
    {
        assert(s@.take(i + 1).drop_last() == s@.take(i as int));
        if s[i] == c {
            count = count + 1;
        }
        i = i + 1;
    }
    assert(s@.take(i as int) == s@);
    count
}

} // verus!
