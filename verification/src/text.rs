//! Character-sequence utilities shared by the tree codec and the boot
//! configuration parser: whitespace trimming, substring search, and
//! splitting text into lines.

use vstd::prelude::*;
use vstd::string::*;

verus! {

broadcast use vstd::seq::group_seq_axioms;

/// The whitespace characters recognized by [`trim`].
pub open spec fn is_ws(c: char) -> bool {
    c == ' ' || c == '\t' || c == '\r'
}

/// Index of the first non-whitespace character at or after `i`
/// (`s.len()` if none).
pub open spec fn first_non_ws(s: Seq<char>, i: int) -> int
    decreases s.len() - i when 0 <= i <= s.len()
{
    if i >= s.len() {
        i
    } else if is_ws(s[i]) {
        first_non_ws(s, i + 1)
    } else {
        i
    }
}

/// One past the index of the last non-whitespace character strictly
/// before `j` (0 if none).
pub open spec fn last_non_ws(s: Seq<char>, j: int) -> int
    decreases j when 0 <= j <= s.len()
{
    if j <= 0 {
        0
    } else if is_ws(s[j - 1]) {
        last_non_ws(s, j - 1)
    } else {
        j
    }
}

/// `s` with leading and trailing whitespace removed.
pub open spec fn trim(s: Seq<char>) -> Seq<char> {
    let lo = first_non_ws(s, 0);
    if lo == s.len() {
        Seq::empty()
    } else {
        s.subrange(lo, last_non_ws(s, s.len() as int))
    }
}

pub proof fn lemma_first_non_ws(s: Seq<char>, i: int)
    requires
        0 <= i <= s.len(),
    ensures
        i <= first_non_ws(s, i) <= s.len(),
        forall|k: int| i <= k < first_non_ws(s, i) ==> is_ws(#[trigger] s[k]),
        first_non_ws(s, i) < s.len() ==> !is_ws(s[first_non_ws(s, i)]),
    decreases s.len() - i,
{
    if i < s.len() && is_ws(s[i]) {
        lemma_first_non_ws(s, i + 1);
    }
}

pub proof fn lemma_last_non_ws(s: Seq<char>, j: int)
    requires
        0 <= j <= s.len(),
    ensures
        0 <= last_non_ws(s, j) <= j,
        forall|k: int| last_non_ws(s, j) <= k < j ==> is_ws(#[trigger] s[k]),
        last_non_ws(s, j) > 0 ==> !is_ws(s[last_non_ws(s, j) - 1]),
    decreases j,
{
    if j > 0 && is_ws(s[j - 1]) {
        lemma_last_non_ws(s, j - 1);
    }
}

/// The bounds used by `trim` are well placed: when some character is not
/// whitespace, the first and last such characters delimit a valid range.
pub proof fn lemma_trim_range(s: Seq<char>)
    ensures
        0 <= first_non_ws(s, 0) <= s.len(),
        first_non_ws(s, 0) < s.len() ==> first_non_ws(s, 0) < last_non_ws(
            s,
            s.len() as int,
        ) <= s.len(),
{
    lemma_first_non_ws(s, 0);
    lemma_last_non_ws(s, s.len() as int);
    let lo = first_non_ws(s, 0);
    let hi = last_non_ws(s, s.len() as int);
    if lo < s.len() && hi <= lo {
        assert(is_ws(s[lo]));
    }
}

/// A sequence equal to its own trim neither starts nor ends with whitespace.
pub open spec fn is_trimmed(s: Seq<char>) -> bool {
    s.len() == 0 || (!is_ws(s[0]) && !is_ws(s[s.len() - 1]))
}

pub proof fn lemma_trim_is_trimmed(s: Seq<char>)
    ensures
        is_trimmed(trim(s)),
        trim(trim(s)) == trim(s),
{
    lemma_trim_range(s);
    lemma_first_non_ws(s, 0);
    lemma_last_non_ws(s, s.len() as int);
    lemma_trimmed_fixpoint(trim(s));
}

/// `trim` leaves an already trimmed sequence unchanged.
pub proof fn lemma_trimmed_fixpoint(s: Seq<char>)
    requires
        is_trimmed(s),
    ensures
        trim(s) == s,
{
    if s.len() > 0 {
        assert(first_non_ws(s, 0) == 0);
        assert(last_non_ws(s, s.len() as int) == s.len() as int);
        assert(trim(s) =~= s);
    }
}

/// `pat` occurs in `s` at position `i`.
pub open spec fn match_at(s: Seq<char>, pat: Seq<char>, i: int) -> bool {
    0 <= i && i + pat.len() <= s.len() && s.subrange(i, i + pat.len()) == pat
}

/// The first position at or after `i` where `pat` occurs in `s`.
pub open spec fn find_at(s: Seq<char>, pat: Seq<char>, i: int) -> Option<int>
    decreases s.len() - i when 0 <= i <= s.len()
{
    if pat.len() == 0 {
        Some(i)
    } else if i + pat.len() > s.len() {
        None
    } else if match_at(s, pat, i) {
        Some(i)
    } else {
        find_at(s, pat, i + 1)
    }
}

/// `pat` occurs somewhere in `s`.
pub open spec fn contains_seq(s: Seq<char>, pat: Seq<char>) -> bool {
    exists|i: int| match_at(s, pat, i)
}

/// Some character of `s` equals `c`.
pub open spec fn has_char(s: Seq<char>, c: char) -> bool {
    exists|i: int| 0 <= i < s.len() && s[i] == c
}

pub proof fn lemma_find_at(s: Seq<char>, pat: Seq<char>, i: int)
    requires
        0 <= i <= s.len(),
    ensures
        match find_at(s, pat, i) {
            Some(k) => i <= k && match_at(s, pat, k) && forall|j: int|
                i <= j < k ==> !match_at(s, pat, j),
            None => forall|j: int| j >= i ==> !match_at(s, pat, j),
        },
    decreases s.len() - i,
{
    if pat.len() == 0 {
        assert(match_at(s, pat, i)) by {
            assert(s.subrange(i, i + pat.len()) =~= pat);
        }
    } else if i + pat.len() > s.len() {
        assert forall|j: int| j >= i implies !match_at(s, pat, j) by {}
    } else if !match_at(s, pat, i) {
        lemma_find_at(s, pat, i + 1);
    }
}

/// A match at `i` forces each character of `pat` to appear at `i + k`.
pub proof fn lemma_match_at_index(s: Seq<char>, pat: Seq<char>, i: int, k: int)
    requires
        match_at(s, pat, i),
        0 <= k < pat.len(),
    ensures
        s[i + k] == pat[k],
{
    assert(s.subrange(i, i + pat.len())[k] == pat[k]);
}

/// Splitting a sequence at every newline character.  Every text has at
/// least one line; a trailing newline yields a final empty line.
pub open spec fn split_lines(s: Seq<char>) -> Seq<Seq<char>>
    decreases s.len(),
{
    if s.len() == 0 {
        seq![Seq::<char>::empty()]
    } else if s[0] == '\n' {
        seq![Seq::<char>::empty()] + split_lines(s.drop_first())
    } else {
        let rest = split_lines(s.drop_first());
        seq![seq![s[0]] + rest[0]] + rest.drop_first()
    }
}

/// Joining lines, terminating every line with a newline character.
pub open spec fn unlines(ls: Seq<Seq<char>>) -> Seq<char>
    decreases ls.len(),
{
    if ls.len() == 0 {
        Seq::empty()
    } else {
        ls[0] + seq!['\n'] + unlines(ls.drop_first())
    }
}

pub proof fn lemma_split_lines_len(s: Seq<char>)
    ensures
        split_lines(s).len() >= 1,
    decreases s.len(),
{
    if s.len() > 0 {
        lemma_split_lines_len(s.drop_first());
    }
}

/// A sequence without newlines splits into itself alone.
pub proof fn lemma_split_lines_whole(s: Seq<char>)
    requires
        !has_char(s, '\n'),
    ensures
        split_lines(s) == seq![s],
    decreases s.len(),
{
    if s.len() == 0 {
        assert(split_lines(s) =~~= seq![s]);
    } else {
        assert(s[0] != '\n');
        assert(!has_char(s.drop_first(), '\n')) by {
            if has_char(s.drop_first(), '\n') {
                let i = choose|i: int|
                    0 <= i < s.drop_first().len() && s.drop_first()[i] == '\n';
                assert(s[i + 1] == '\n');
            }
        }
        lemma_split_lines_whole(s.drop_first());
        assert(seq![s[0]] + s.drop_first() =~= s);
        assert(split_lines(s) =~~= seq![s]);
    }
}

/// Peeling one newline-terminated line off the front of a split.
pub proof fn lemma_split_lines_cons(line: Seq<char>, rest: Seq<char>)
    requires
        !has_char(line, '\n'),
    ensures
        split_lines(line + seq!['\n'] + rest) == seq![line] + split_lines(rest),
    decreases line.len(),
{
    let s = line + seq!['\n'] + rest;
    if line.len() == 0 {
        assert(s[0] == '\n');
        assert(s.drop_first() =~= rest);
        assert(split_lines(s) =~~= seq![line] + split_lines(rest));
    } else {
        assert(s[0] == line[0]);
        assert(s[0] != '\n');
        assert(!has_char(line.drop_first(), '\n')) by {
            if has_char(line.drop_first(), '\n') {
                let i = choose|i: int|
                    0 <= i < line.drop_first().len() && line.drop_first()[i] == '\n';
                assert(line[i + 1] == '\n');
            }
        }
        lemma_split_lines_cons(line.drop_first(), rest);
        assert(s.drop_first() =~= line.drop_first() + seq!['\n'] + rest);
        let inner = split_lines(s.drop_first());
        lemma_split_lines_len(rest);
        assert(inner == seq![line.drop_first()] + split_lines(rest));
        assert(inner[0] == line.drop_first());
        assert(seq![s[0]] + inner[0] =~= line);
        assert(inner.drop_first() =~= split_lines(rest));
        assert(split_lines(s) =~~= seq![line] + split_lines(rest));
    }
}

/// Splitting newline-joined lines recovers the lines, with one trailing
/// empty line from the final newline.
pub proof fn lemma_split_unlines(ls: Seq<Seq<char>>)
    requires
        forall|i: int| 0 <= i < ls.len() ==> !has_char(#[trigger] ls[i], '\n'),
    ensures
        split_lines(unlines(ls)) == ls + seq![Seq::<char>::empty()],
    decreases ls.len(),
{
    if ls.len() == 0 {
        assert(split_lines(unlines(ls)) =~~= ls + seq![Seq::<char>::empty()]);
    } else {
        lemma_split_unlines(ls.drop_first());
        lemma_split_lines_cons(ls[0], unlines(ls.drop_first()));
        assert(split_lines(unlines(ls)) =~~= ls + seq![Seq::<char>::empty()]);
    }
}

/// The views of a sequence of owned strings.
pub open spec fn line_views(ls: Seq<String>) -> Seq<Seq<char>> {
    Seq::new(ls.len(), |i: int| ls[i]@)
}

pub fn is_ws_exec(c: char) -> (r: bool)
    ensures
        r == is_ws(c),
{
    c == ' ' || c == '\t' || c == '\r'
}

/// First index at or after `from` where `pat` occurs in `s`.
pub fn find_pat(s: &str, pat: &str, from: usize) -> (r: Option<usize>)
    requires
        from <= s@.len(),
    ensures
        match r {
            Some(k) => find_at(s@, pat@, from as int) == Some(k as int),
            None => find_at(s@, pat@, from as int) is None,
        },
{
    let n = s.unicode_len();
    let m = pat.unicode_len();
    if m == 0 {
        return Some(from);
    }
    let mut i = from;
    while m <= n - i && i < n
        invariant
            from <= i <= n,
            n == s@.len(),
            m == pat@.len(),
            m >= 1,
            find_at(s@, pat@, from as int) == find_at(s@, pat@, i as int),
        decreases n - i,
    {
        let mut j: usize = 0;
        let mut matched = true;
        while j < m
            invariant
                0 <= j <= m,
                i + m <= n,
                n == s@.len(),
                m == pat@.len(),
                matched ==> forall|k: int| 0 <= k < j ==> s@[i + k] == pat@[k],
                !matched ==> !match_at(s@, pat@, i as int),
            decreases m - j,
        {
            if s.get_char(i + j) != pat.get_char(j) {
                proof {
                    if match_at(s@, pat@, i as int) {
                        lemma_match_at_index(s@, pat@, i as int, j as int);
                    }
                }
                matched = false;
                j = m;
            } else {
                j = j + 1;
            }
        }
        if matched {
            proof {
                assert(s@.subrange(i as int, i + m) =~= pat@);
            }
            return Some(i);
        }
        proof {
            assert(find_at(s@, pat@, i as int) == find_at(s@, pat@, i + 1));
        }
        i = i + 1;
    }
    proof {
        assert(find_at(s@, pat@, i as int) is None);
    }
    None
}

/// Whether `pat` occurs anywhere in `s`.
pub fn has_pat(s: &str, pat: &str) -> (r: bool)
    ensures
        r == contains_seq(s@, pat@),
{
    let r = find_pat(s, pat, 0);
    proof {
        lemma_find_at(s@, pat@, 0);
        if find_at(s@, pat@, 0) is Some {
            assert(contains_seq(s@, pat@));
        } else {
            assert forall|i: int| !match_at(s@, pat@, i) by {
                if i >= 0 {
                    assert(!match_at(s@, pat@, i));
                }
            }
        }
    }
    r.is_some()
}

/// `s` begins with `p`.
pub open spec fn starts_with(s: Seq<char>, p: Seq<char>) -> bool {
    p.len() <= s.len() && s.subrange(0, p.len() as int) == p
}

/// Whether `s` begins with `p`.
pub fn starts_with_str(s: &str, p: &str) -> (r: bool)
    ensures
        r == starts_with(s@, p@),
{
    let n = s.unicode_len();
    let m = p.unicode_len();
    if m > n {
        return false;
    }
    let mut i: usize = 0;
    while i < m
        invariant
            0 <= i <= m,
            m <= n,
            n == s@.len(),
            m == p@.len(),
            forall|k: int| 0 <= k < i ==> s@[k] == p@[k],
        decreases m - i,
    {
        if s.get_char(i) != p.get_char(i) {
            proof {
                if starts_with(s@, p@) {
                    assert(s@.subrange(0, m as int)[i as int] == p@[i as int]);
                }
            }
            return false;
        }
        i = i + 1;
    }
    proof {
        assert(s@.subrange(0, m as int) =~= p@);
    }
    true
}

/// Character-for-character string equality.
pub fn str_eq(a: &str, b: &str) -> (r: bool)
    ensures
        r == (a@ == b@),
{
    let n = a.unicode_len();
    if n != b.unicode_len() {
        return false;
    }
    let mut i: usize = 0;
    while i < n
        invariant
            0 <= i <= n,
            n == a@.len(),
            n == b@.len(),
            forall|k: int| 0 <= k < i ==> a@[k] == b@[k],
        decreases n - i,
    {
        if a.get_char(i) != b.get_char(i) {
            return false;
        }
        i = i + 1;
    }
    proof {
        assert(a@ =~= b@);
    }
    true
}

/// Whether some character of `s` equals `c`.
pub fn has_char_exec(s: &str, c: char) -> (r: bool)
    ensures
        r == has_char(s@, c),
{
    let n = s.unicode_len();
    let mut i: usize = 0;
    while i < n
        invariant
            0 <= i <= n,
            n == s@.len(),
            forall|k: int| 0 <= k < i ==> s@[k] != c,
        decreases n - i,
    {
        if s.get_char(i) == c {
            return true;
        }
        i = i + 1;
    }
    false
}

/// The first-non-whitespace bound used by `trim`.
pub fn ws_lo(s: &str) -> (lo: usize)
    ensures
        lo as int == first_non_ws(s@, 0),
{
    let n = s.unicode_len();
    let mut i: usize = 0;
    while i < n && is_ws_exec(s.get_char(i))
        invariant
            0 <= i <= n,
            n == s@.len(),
            first_non_ws(s@, 0) == first_non_ws(s@, i as int),
        decreases n - i,
    {
        proof {
            assert(first_non_ws(s@, i as int) == first_non_ws(s@, i + 1));
        }
        i = i + 1;
    }
    i
}

/// The after-last-non-whitespace bound used by `trim`.
pub fn ws_hi(s: &str) -> (hi: usize)
    ensures
        hi as int == last_non_ws(s@, s@.len() as int),
{
    let n = s.unicode_len();
    let mut j: usize = n;
    while j > 0 && is_ws_exec(s.get_char(j - 1))
        invariant
            0 <= j <= n,
            n == s@.len(),
            last_non_ws(s@, n as int) == last_non_ws(s@, j as int),
        decreases j,
    {
        proof {
            assert(last_non_ws(s@, j as int) == last_non_ws(s@, j - 1));
        }
        j = j - 1;
    }
    j
}

/// A borrowed slice of `s` with leading and trailing whitespace removed.
pub fn trim_str<'a>(s: &'a str) -> (r: &'a str)
    ensures
        r@ == trim(s@),
{
    let n = s.unicode_len();
    let lo = ws_lo(s);
    proof {
        lemma_trim_range(s@);
    }
    if lo == n {
        let r = s.substring_char(0, 0);
        proof {
            assert(r@ =~= trim(s@));
        }
        r
    } else {
        let hi = ws_hi(s);
        s.substring_char(lo, hi)
    }
}

/// Splits `s` into its lines, one owned string per line.
pub fn split_to_lines(s: &str) -> (r: Vec<String>)
    ensures
        line_views(r@) == split_lines(s@),
{
    let n = s.unicode_len();
    let mut out: Vec<String> = Vec::new();
    let mut start: usize = 0;
    let mut i: usize = 0;
    proof {
        assert(s@.subrange(0, n as int) =~= s@);
        assert(line_views(out@) + split_lines(s@) =~~= split_lines(s@));
        assert(s@.subrange(0, 0) =~= Seq::<char>::empty());
    }
    while i < n
        invariant
            start <= i <= n,
            n == s@.len(),
            split_lines(s@) == line_views(out@) + split_lines(
                s@.subrange(start as int, n as int),
            ),
            !has_char(s@.subrange(start as int, i as int), '\n'),
        decreases n - i,
    {
        if s.get_char(i) == '\n' {
            let ghost old_out = out@;
            out.push(String::from_str(s.substring_char(start, i)));
            proof {
                let seg = s@.subrange(start as int, i as int);
                let tail = s@.subrange(i + 1, n as int);
                assert(s@.subrange(start as int, n as int) =~= seg + seq!['\n'] + tail);
                lemma_split_lines_cons(seg, tail);
                assert(line_views(out@) =~~= line_views(old_out) + seq![seg]);
                assert(line_views(out@) + split_lines(tail) =~~= (line_views(old_out)
                    + seq![seg]) + split_lines(tail));
            }
            start = i + 1;
            proof {
                assert(s@.subrange(start as int, start as int) =~= Seq::<char>::empty());
            }
        } else {
            proof {
                let seg = s@.subrange(start as int, i as int);
                let seg2 = s@.subrange(start as int, i + 1);
                assert(seg2 =~= seg.push(s@[i as int]));
                assert forall|k: int| 0 <= k < seg2.len() implies seg2[k] != '\n' by {}
            }
        }
        i = i + 1;
    }
    let ghost old_out = out@;
    out.push(String::from_str(s.substring_char(start, n)));
    proof {
        lemma_split_lines_whole(s@.subrange(start as int, n as int));
        assert(line_views(out@) =~~= line_views(old_out) + seq![
            s@.subrange(start as int, n as int),
        ]);
        assert(line_views(out@) =~~= split_lines(s@));
    }
    out
}

/// No line produced by splitting contains a newline.
pub proof fn lemma_split_lines_no_nl(s: Seq<char>)
    ensures
        forall|q: int|
            0 <= q < split_lines(s).len() ==> !has_char(#[trigger] split_lines(s)[q], '\n'),
    decreases s.len(),
{
    if s.len() == 0 {
        assert(!has_char(Seq::<char>::empty(), '\n'));
    } else if s[0] == '\n' {
        lemma_split_lines_no_nl(s.drop_first());
        assert(!has_char(Seq::<char>::empty(), '\n'));
        assert forall|q: int|
            0 <= q < split_lines(s).len() implies !has_char(
            #[trigger] split_lines(s)[q],
            '\n',
        ) by {
            if q > 0 {
                assert(split_lines(s)[q] == split_lines(s.drop_first())[q - 1]);
            }
        }
    } else {
        lemma_split_lines_no_nl(s.drop_first());
        lemma_split_lines_len(s.drop_first());
        let rest = split_lines(s.drop_first());
        assert forall|q: int|
            0 <= q < split_lines(s).len() implies !has_char(
            #[trigger] split_lines(s)[q],
            '\n',
        ) by {
            if q == 0 {
                let l0 = seq![s[0]] + rest[0];
                assert(split_lines(s)[0] == l0);
                assert(!has_char(rest[0], '\n'));
                if has_char(l0, '\n') {
                    let w = choose|w: int| 0 <= w < l0.len() && l0[w] == '\n';
                    if w == 0 {
                        assert(s[0] == '\n');
                    } else {
                        assert(rest[0][w - 1] == '\n');
                        assert(has_char(rest[0], '\n'));
                    }
                }
            } else {
                assert(split_lines(s)[q] == rest.drop_first()[q - 1]);
                assert(rest.drop_first()[q - 1] == rest[q]);
            }
        }
    }
}

/// Joining a single line appends exactly one newline.
pub proof fn lemma_unlines_one(l: Seq<char>)
    ensures
        unlines(seq![l]) == l + seq!['\n'],
{
    assert(seq![l].drop_first() =~= Seq::<Seq<char>>::empty());
    assert(unlines(Seq::<Seq<char>>::empty()) == Seq::<char>::empty());
    assert(unlines(seq![l]) =~= l + seq!['\n']);
}

/// Joining distributes over concatenation of line blocks.
pub proof fn lemma_unlines_app(a: Seq<Seq<char>>, b: Seq<Seq<char>>)
    ensures
        unlines(a + b) == unlines(a) + unlines(b),
    decreases a.len(),
{
    if a.len() == 0 {
        assert(a + b =~= b);
        assert(unlines(a) + unlines(b) =~= unlines(b));
    } else {
        lemma_unlines_app(a.drop_first(), b);
        assert((a + b).drop_first() =~= a.drop_first() + b);
        assert(unlines(a + b) =~= unlines(a) + unlines(b));
    }
}

} // verus!
