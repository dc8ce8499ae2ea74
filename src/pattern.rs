//! Regular expressions, compiled and run by the `regex` crate, and the exact
//! meaning of the control-sequence pattern that the output pipeline erases.

use vstd::prelude::*;

verus! {

#[verifier::external_type_specification]
#[verifier::external_body]
pub struct ExRegex(regex::Regex);

#[verifier::external_type_specification]
#[verifier::external_body]
pub struct ExRegexError(regex::Error);

/// A control-sequence-introducer escape: ESC, `[`, parameters, a final letter.
pub const CSI_PATTERN: &'static str = "\x1b\\[[0-9;]*[a-zA-Z]";

/// Block-drawing glyphs, a percentage, or a bracketed bar such as `[==>  ]`.
pub const PROGRESS_PATTERN: &'static str = "[\\r\\n]*[\\s]*[\u{258c}\u{258d}\u{258e}\u{258f}\u{2588}\u{2591}\u{2592}\u{2593}\u{25a0}\u{25a1}\u{25aa}\u{25ab}\u{25cf}\u{25cb}\u{25d0}\u{25d1}\u{25d2}\u{25d3}\u{25d4}\u{25d5}\u{25d6}\u{25d7}\u{25d8}\u{25d9}\u{25da}\u{25db}\u{25dc}\u{25dd}\u{25de}\u{25df}\u{25e0}\u{25e1}\u{25e2}\u{25e3}\u{25e4}\u{25e5}\u{25e6}\u{25e7}\u{25e8}\u{25e9}\u{25ea}\u{25eb}\u{25ec}\u{25ed}\u{25ee}\u{25ef}]+|[0-9]+%|\\[[=>\\-\\s]*\\]";

/// Whether `p` is a pattern that the `regex` crate accepts.
pub uninterp spec fn regex_valid(p: Seq<char>) -> bool;

/// Whether the pattern `p` matches somewhere in `s`.
pub uninterp spec fn regex_found(p: Seq<char>, s: Seq<char>) -> bool;

/// Whether `c` is one of the block or geometric glyphs drawn by progress
/// bars and spinners.
pub open spec fn is_progress_glyph(c: char) -> bool {
    ('\u{258c}' <= c && c <= '\u{258f}') || c == '\u{2588}' || ('\u{2591}' <= c && c <= '\u{2593}')
        || c == '\u{25a0}' || c == '\u{25a1}' || c == '\u{25aa}' || c == '\u{25ab}' || c == '\u{25cf}'
        || c == '\u{25cb}' || ('\u{25d0}' <= c && c <= '\u{25ef}')
}

/// Whether `c` may fill a bracketed bar such as `[==>  ]`.
pub open spec fn is_bar_fill(c: char) -> bool {
    c == '=' || c == '>' || c == '-' || crate::text::is_ws(c)
}

/// What the progress pattern finds: a progress glyph, a decimal digit
/// directly followed by `%`, or `[` and `]` with only bar filling between.
pub open spec fn progress_shape(t: Seq<char>) -> bool {
    (exists|i: int| 0 <= i < t.len() && is_progress_glyph(#[trigger] t[i])) || (exists|i: int|
        0 <= i && i + 1 < t.len() && '0' <= #[trigger] t[i] && t[i] <= '9' && t[i + 1] == '%')
        || (exists|i: int, j: int|
        0 <= i < j < t.len() && #[trigger] t[i] == '[' && #[trigger] t[j] == ']' && (forall|k: int|
            i < k < j ==> is_bar_fill(#[trigger] t[k])))
}

/// Whether `c` may stand among the parameters of a control sequence.
pub open spec fn is_csi_param(c: char) -> bool {
    ('0' <= c && c <= '9') || c == ';'
}

/// Whether `c` is an ASCII letter.
pub open spec fn is_ascii_letter(c: char) -> bool {
    ('a' <= c && c <= 'z') || ('A' <= c && c <= 'Z')
}

/// The first index at or after `j` that holds no parameter character.
pub open spec fn param_end(s: Seq<char>, j: int) -> int
    decreases s.len() - j,
{
    if 0 <= j < s.len() && is_csi_param(s[j]) {
        param_end(s, j + 1)
    } else {
        j
    }
}

/// Length of the control sequence at the start of `s`, 0 when none starts there.
pub open spec fn csi_len(s: Seq<char>) -> int {
    if s.len() >= 2 && s[0] == '\u{1b}' && s[1] == '[' {
        let k = param_end(s, 2);
        if k < s.len() && is_ascii_letter(s[k]) {
            k + 1
        } else {
            0
        }
    } else {
        0
    }
}

/// Whether a control sequence starts anywhere in `s`.
pub open spec fn has_csi(s: Seq<char>) -> bool {
    exists|i: int| 0 <= i < s.len() && #[trigger] csi_len(s.skip(i)) > 0
}

/// `s` with its control sequences removed, scanning from the left and
/// resuming after each removed sequence.
pub open spec fn strip_csi(s: Seq<char>) -> Seq<char>
    decreases s.len(),
{
    if s.len() == 0 {
        s
    } else if csi_len(s) > 0 {
        strip_csi(s.skip(csi_len(s)))
    } else {
        seq![s[0]] + strip_csi(s.skip(1))
    }
}

/// A compiled regular expression together with its source text.
pub struct Pattern {
    source: String,
    re: regex::Regex,
}

impl View for Pattern {
    type V = Seq<char>;

    closed spec fn view(&self) -> Seq<char> {
        self.source@
    }
}

/// Relies on `regex::Regex::new`: it succeeds exactly on the patterns the
/// crate accepts.
#[verifier::external_body]
fn compile(p: &str) -> (r: Result<regex::Regex, regex::Error>)
    ensures
        r is Ok <==> regex_valid(p@),
{
    regex::Regex::new(p)
}

/// Relies on `regex::Regex::is_match`: for the progress pattern, a match
/// exists exactly where `progress_shape` holds (its leading `[\r\n]*[\s]*`
/// may match empty, `\s` is Unicode whitespace).
#[verifier::external_body]
pub(crate) fn find_in(p: &Pattern, s: &str) -> (r: bool)
    ensures
        r == regex_found(p@, s@),
        p@ == PROGRESS_PATTERN@ ==> r == progress_shape(s@),
{
    p.re.is_match(s)
}

/// Relies on `regex::Regex::replace_all` with an empty replacement: for the
/// control-sequence pattern it removes the leftmost-first matches, which is
/// `strip_csi`.
#[verifier::external_body]
pub(crate) fn erase_matches(p: &Pattern, s: &str) -> (r: String)
    ensures
        p@ == CSI_PATTERN@ ==> r@ == strip_csi(s@),
{
    p.re.replace_all(s, "").into_owned()
}

impl Pattern {
    /// Compiles `p`; fails exactly when the `regex` crate rejects it.
    pub fn new(p: &str) -> (r: Result<Pattern, PatternError>)
        ensures
            r is Ok <==> regex_valid(p@),
            r is Ok ==> r->Ok_0@ == p@,
            r is Err ==> r->Err_0.pattern@ == p@,
    {
        match compile(p) {
            Ok(re) => Ok(Pattern { source: p.to_owned(), re }),
            Err(_) => Err(PatternError { pattern: p.to_owned() }),
        }
    }

    /// Whether this pattern matches somewhere in `s`.
    pub fn is_match(&self, s: &str) -> (r: bool)
        ensures
            r == regex_found(self@, s@),
    {
        find_in(self, s)
    }
}

/// A pattern that does not compile.
pub struct PatternError {
    pub pattern: String,
}

/// Stripping control sequences changes nothing in a text that holds none.
pub proof fn lemma_strip_csi_free(s: Seq<char>)
    requires
        !has_csi(s),
    ensures
        strip_csi(s) == s,
    decreases s.len(),
{
    if s.len() > 0 {
        assert(!(csi_len(s.skip(0)) > 0));
        assert(s.skip(0) == s);
        let t = s.skip(1);
        assert forall|i: int| 0 <= i < t.len() implies !(csi_len(#[trigger] t.skip(i)) > 0) by {
            assert(!(csi_len(s.skip(i + 1)) > 0));
            assert(t.skip(i) == s.skip(i + 1));
        }
        lemma_strip_csi_free(t);
        assert(s == seq![s[0]] + t);
    }
}

/// Stripping never lengthens a text, and shortens any text that holds a
/// control sequence.
pub proof fn lemma_strip_csi_len(s: Seq<char>)
    ensures
        strip_csi(s).len() <= s.len(),
        has_csi(s) ==> strip_csi(s).len() < s.len(),
    decreases s.len(),
{
    if s.len() > 0 {
        if csi_len(s) > 0 {
            assert(csi_len(s) >= 3) by {
                assert(param_end(s, 2) >= 2) by { lemma_param_end_ge(s, 2) }
            }
            lemma_strip_csi_len(s.skip(csi_len(s)));
        } else {
            let t = s.skip(1);
            lemma_strip_csi_len(t);
            if has_csi(s) {
                let i = choose|i: int| 0 <= i < s.len() && #[trigger] csi_len(s.skip(i)) > 0;
                assert(s.skip(0) == s);
                assert(i > 0);
                assert(t.skip(i - 1) == s.skip(i));
                assert(0 <= i - 1 < t.len() && csi_len(t.skip(i - 1)) > 0);
            }
        }
    }
}

proof fn lemma_param_end_ge(s: Seq<char>, j: int)
    ensures
        param_end(s, j) >= j,
    decreases s.len() - j,
{
    if 0 <= j < s.len() && is_csi_param(s[j]) {
        lemma_param_end_ge(s, j + 1);
    }
}

/// `s` with control sequences removed until none is left: removing one
/// sequence can bring the characters around it together into another, so
/// single passes are repeated while a sequence remains.
pub open spec fn strip_all(s: Seq<char>) -> Seq<char>
    decreases s.len(),
{
    if has_csi(s) && strip_csi(s).len() < s.len() {
        strip_all(strip_csi(s))
    } else {
        s
    }
}

/// One more pass changes the text exactly when a sequence is left in it,
/// and then it shortens the text.
pub proof fn lemma_strip_csi_pass(s: Seq<char>)
    ensures
        has_csi(s) <==> strip_csi(s).len() < s.len(),
        !has_csi(s) ==> strip_csi(s) == s,
        has_csi(s) ==> strip_all(s) == strip_all(strip_csi(s)),
{
    lemma_strip_csi_len(s);
    if !has_csi(s) {
        lemma_strip_csi_free(s);
    }
}

/// Full stripping leaves no control sequence.
pub proof fn lemma_strip_all_leaves_none(s: Seq<char>)
    ensures
        !has_csi(strip_all(s)),
    decreases s.len(),
{
    lemma_strip_csi_pass(s);
    if has_csi(s) {
        lemma_strip_all_leaves_none(strip_csi(s));
    }
}

/// Full stripping is idempotent: stripping an already stripped text yields
/// the same text.
pub proof fn lemma_strip_all_idempotent(s: Seq<char>)
    ensures
        strip_all(strip_all(s)) == strip_all(s),
{
    lemma_strip_all_leaves_none(s);
}

proof fn lemma_param_end_run(t: Seq<char>, j: int)
    requires
        0 <= j,
    ensures
        j <= param_end(t, j),
        param_end(t, j) <= t.len() || param_end(t, j) == j,
        forall|k: int| j <= k < param_end(t, j) ==> is_csi_param(#[trigger] t[k]),
    decreases t.len() - j,
{
    if 0 <= j < t.len() && is_csi_param(t[j]) {
        lemma_param_end_run(t, j + 1);
    }
}

proof fn lemma_param_end_agree(t: Seq<char>, u: Seq<char>, j: int)
    requires
        0 <= j <= param_end(t, j) < t.len(),
        param_end(t, j) < u.len(),
        forall|k: int| j <= k <= param_end(t, j) ==> t[k] == u[k],
    ensures
        param_end(u, j) == param_end(t, j),
    decreases t.len() - j,
{
    if is_csi_param(t[j]) {
        lemma_param_end_run(t, j + 1);
        lemma_param_end_agree(t, u, j + 1);
    }
}

/// The characters of a control sequence: none ends a line, and the length
/// fits in the text.
pub proof fn lemma_csi_shape(t: Seq<char>)
    requires
        csi_len(t) > 0,
    ensures
        csi_len(t) <= t.len(),
        forall|k: int| 0 <= k < csi_len(t) ==> #[trigger] t[k] != '\n' && t[k] != '\r',
{
    lemma_param_end_run(t, 2);
    assert forall|k: int| 0 <= k < csi_len(t) implies #[trigger] t[k] != '\n' && t[k] != '\r' by {
        if 2 <= k < param_end(t, 2) {
            assert(is_csi_param(t[k]));
        }
    }
}

/// Whether a control sequence starts at the front of a text depends only
/// on the characters it spans.
pub proof fn lemma_csi_same_span(t: Seq<char>, u: Seq<char>)
    requires
        csi_len(t) > 0,
        u.len() >= csi_len(t),
        forall|k: int| 0 <= k < csi_len(t) ==> t[k] == u[k],
    ensures
        csi_len(u) == csi_len(t),
{
    lemma_param_end_run(t, 2);
    lemma_param_end_agree(t, u, 2);
}

/// A sequence in a suffix is a sequence in the whole.
pub proof fn lemma_csi_in_suffix(s: Seq<char>, n: int)
    requires
        0 <= n <= s.len(),
        has_csi(s.skip(n)),
    ensures
        has_csi(s),
{
    let i = choose|i: int| 0 <= i < s.skip(n).len() && #[trigger] csi_len(s.skip(n).skip(i)) > 0;
    assert(s.skip(n).skip(i) == s.skip(n + i));
    assert(csi_len(s.skip(n + i)) > 0);
}

/// A sequence in a prefix is a sequence in the whole.
pub proof fn lemma_csi_in_prefix(s: Seq<char>, n: int)
    requires
        0 <= n <= s.len(),
        has_csi(s.take(n)),
    ensures
        has_csi(s),
{
    let t = s.take(n);
    let i = choose|i: int| 0 <= i < t.len() && #[trigger] csi_len(t.skip(i)) > 0;
    lemma_csi_shape(t.skip(i));
    lemma_csi_same_span(t.skip(i), s.skip(i));
    assert(csi_len(s.skip(i)) > 0);
}

/// A sequence cannot span a newline: one in `a`, a newline, `b` lies in `a`
/// or in `b`.
pub proof fn lemma_csi_split_at_newline(a: Seq<char>, b: Seq<char>)
    requires
        has_csi(a + seq!['\n'] + b),
    ensures
        has_csi(a) || has_csi(b),
{
    let w = a + seq!['\n'] + b;
    let i = choose|i: int| 0 <= i < w.len() && #[trigger] csi_len(w.skip(i)) > 0;
    let m = csi_len(w.skip(i));
    lemma_csi_shape(w.skip(i));
    if i < a.len() {
        if i + m > a.len() {
            assert(w.skip(i)[a.len() - i] == '\n');
        }
        lemma_csi_same_span(w.skip(i), a.skip(i));
        assert(csi_len(a.skip(i)) > 0);
    } else if i == a.len() {
        assert(w.skip(i)[0] == '\n');
    } else {
        assert(w.skip(i) == b.skip(i - a.len() - 1));
        assert(csi_len(b.skip(i - a.len() - 1)) > 0);
    }
}

} // verus!
