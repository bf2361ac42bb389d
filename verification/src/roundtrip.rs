//! The round-trip law: a tree built by parsing, serialized and parsed
//! again, is reproduced exactly.  The proof classifies every line the
//! serializer emits, shows that every tree the parser builds is well
//! formed, and walks the serialized block with the model parser.

use vstd::prelude::*;
use crate::model::{
    DtsError, NodeModel, PropModel, close_pat, eq_sep, is_close_line, is_comment, is_open_line,
    open_name, parse_items, parse_node, prop_line, prop_of_line, ser_children, ser_lines,
    ser_props, skip_line, starts_comment, tabs, wf_key_common, wf_name, wf_node, wf_prop,
};
use crate::text::{
    contains_seq, find_at, first_non_ws, has_char, is_trimmed, is_ws, last_non_ws,
    lemma_find_at, lemma_match_at_index, lemma_trim_is_trimmed, lemma_trimmed_fixpoint,
    match_at, trim,
};

verus! {

broadcast use vstd::seq::group_seq_axioms;

// ---------------------------------------------------------------------
// Trim characterization: where the bounds fall once the non-whitespace
// span is known.
// ---------------------------------------------------------------------

pub proof fn lemma_fnw_is(s: Seq<char>, i: int, m: int)
    requires
        0 <= i <= m <= s.len(),
        forall|k: int| i <= k < m ==> is_ws(#[trigger] s[k]),
        m < s.len() ==> !is_ws(s[m]),
    ensures
        first_non_ws(s, i) == m,
    decreases m - i,
{
    if i < m {
        lemma_fnw_is(s, i + 1, m);
    }
}

pub proof fn lemma_lnw_is(s: Seq<char>, m: int, j: int)
    requires
        0 <= m <= j <= s.len(),
        forall|k: int| m <= k < j ==> is_ws(#[trigger] s[k]),
        m > 0 ==> !is_ws(s[m - 1]),
    ensures
        last_non_ws(s, j) == m,
    decreases j - m,
{
    if m < j {
        lemma_lnw_is(s, m, j - 1);
    }
}

/// `trim` keeps exactly the span `[a, b)` when whitespace surrounds it
/// and non-whitespace characters stand at both of its ends.
pub proof fn lemma_trim_is(s: Seq<char>, a: int, b: int)
    requires
        0 <= a < b <= s.len(),
        forall|k: int| 0 <= k < a ==> is_ws(#[trigger] s[k]),
        forall|k: int| b <= k < s.len() ==> is_ws(#[trigger] s[k]),
        !is_ws(s[a]),
        !is_ws(s[b - 1]),
    ensures
        trim(s) == s.subrange(a, b),
    decreases 0int,
{
    lemma_fnw_is(s, 0, a);
    lemma_lnw_is(s, b, s.len() as int);
}

/// An all-whitespace sequence trims to nothing.
pub proof fn lemma_trim_all_ws(s: Seq<char>)
    requires
        forall|k: int| 0 <= k < s.len() ==> is_ws(#[trigger] s[k]),
    ensures
        trim(s) == Seq::<char>::empty(),
{
    lemma_fnw_is(s, 0, s.len() as int);
}

// ---------------------------------------------------------------------
// Two- and three-character patterns, pointwise.
// ---------------------------------------------------------------------

/// A two-character pattern occurs exactly where its characters stand
/// adjacent.
pub proof fn lemma_contains2(s: Seq<char>, pat: Seq<char>)
    requires
        pat.len() == 2,
    ensures
        contains_seq(s, pat) <==> exists|i: int|
            0 <= i && i + 1 < s.len() && #[trigger] s[i] == pat[0] && s[i + 1] == pat[1],
{
    if contains_seq(s, pat) {
        let q = choose|q: int| match_at(s, pat, q);
        lemma_match_at_index(s, pat, q, 0);
        lemma_match_at_index(s, pat, q, 1);
        assert(0 <= q && q + 1 < s.len() && s[q] == pat[0] && s[q + 1] == pat[1]);
    }
    if exists|i: int| 0 <= i && i + 1 < s.len() && #[trigger] s[i] == pat[0] && s[i + 1]
        == pat[1] {
        let i = choose|i: int|
            0 <= i && i + 1 < s.len() && #[trigger] s[i] == pat[0] && s[i + 1] == pat[1];
        assert(s.subrange(i, i + 2) =~= pat);
        assert(match_at(s, pat, i));
    }
}

/// A three-character pattern occurs exactly where its characters stand
/// adjacent.
pub proof fn lemma_contains3(s: Seq<char>, pat: Seq<char>)
    requires
        pat.len() == 3,
    ensures
        contains_seq(s, pat) <==> exists|i: int|
            0 <= i && i + 2 < s.len() && #[trigger] s[i] == pat[0] && s[i + 1] == pat[1] && s[i + 2]
                == pat[2],
{
    if contains_seq(s, pat) {
        let q = choose|q: int| match_at(s, pat, q);
        lemma_match_at_index(s, pat, q, 0);
        lemma_match_at_index(s, pat, q, 1);
        lemma_match_at_index(s, pat, q, 2);
        assert(0 <= q && q + 2 < s.len() && s[q] == pat[0] && s[q + 1] == pat[1] && s[q + 2]
            == pat[2]);
    }
    if exists|i: int|
        0 <= i && i + 2 < s.len() && #[trigger] s[i] == pat[0] && s[i + 1] == pat[1] && s[i + 2]
            == pat[2] {
        let i = choose|i: int|
            0 <= i && i + 2 < s.len() && #[trigger] s[i] == pat[0] && s[i + 1] == pat[1]
                && s[i + 2] == pat[2];
        assert(s.subrange(i, i + 3) =~= pat);
        assert(match_at(s, pat, i));
    }
}

/// Characters of a subrange are characters of the whole.
pub proof fn lemma_sub_has_char(s: Seq<char>, a: int, b: int, c: char)
    requires
        0 <= a <= b <= s.len(),
        !has_char(s, c),
    ensures
        !has_char(s.subrange(a, b), c),
{
    assert forall|k: int| 0 <= k < b - a implies s.subrange(a, b)[k] != c by {
        assert(s[a + k] != c);
    }
}

/// Characters of a trim are characters of the whole.
pub proof fn lemma_trim_has_char(s: Seq<char>, c: char)
    requires
        !has_char(s, c),
    ensures
        !has_char(trim(s), c),
{
    crate::text::lemma_trim_range(s);
    let lo = first_non_ws(s, 0);
    if lo == s.len() {
    } else {
        lemma_sub_has_char(s, lo, last_non_ws(s, s.len() as int), c);
    }
}

// ---------------------------------------------------------------------
// How the parser classifies each line the serializer emits.
// ---------------------------------------------------------------------

/// A blank line is passed over: it is no event and no property.
pub proof fn lemma_blank_line()
    ensures
        !is_open_line(Seq::<char>::empty()),
        !is_close_line(Seq::<char>::empty()),
        skip_line(Seq::<char>::empty()),
        !has_char(Seq::<char>::empty(), '\n'),
{
    let l = Seq::<char>::empty();
    lemma_contains2(l, close_pat());
    assert(trim(l) =~= Seq::<char>::empty());
}

/// The serializer's close line is a close event and nothing else.
pub proof fn lemma_close_line(d: nat)
    ensures
        is_close_line(tabs(d) + close_pat()),
        !is_open_line(tabs(d) + close_pat()),
        !skip_line(tabs(d) + close_pat()),
        !has_char(tabs(d) + close_pat(), '\n'),
{
    let l = tabs(d) + close_pat();
    assert(l.len() == d + 2);
    assert(forall|k: int| 0 <= k < d ==> #[trigger] l[k] == '\t');
    assert(l[d as int] == '}');
    assert(l[d as int + 1] == ';');
    assert forall|ii: int| 0 <= ii < l.len() implies #[trigger] l[ii] != '{' && l[ii] != '\n' by {
        if ii < d {
            assert(l[ii] == '\t');
        }
    }
    lemma_contains2(l, close_pat());
    lemma_trim_is(l, d as int, d as int + 2);
    assert(trim(l) =~= close_pat());
}

/// The serializer's node header line is an open event whose recovered
/// name is exactly the node's name.
pub proof fn lemma_header_line(name: Seq<char>, d: nat)
    requires
        wf_name(name),
    ensures
        is_open_line(tabs(d) + name + seq![' ', '{']),
        open_name(tabs(d) + name + seq![' ', '{']) == Some(name),
        !has_char(tabs(d) + name + seq![' ', '{'], '\n'),
{
    let nl = name.len() as int;
    let l = tabs(d) + name + seq![' ', '{'];
    assert(l.len() == d + nl + 2);
    assert(forall|k: int| 0 <= k < d ==> #[trigger] l[k] == '\t');
    assert(forall|k: int| 0 <= k < nl ==> #[trigger] l[d + k] == name[k]);
    assert(l[d + nl] == ' ');
    assert(l[d + nl + 1] == '{');
    assert(l[d + nl + 1] == '{' && !is_ws('{'));
    assert(has_char(l, '{'));
    assert forall|ii: int| 0 <= ii < l.len() implies #[trigger] l[ii] != '\n' by {
        if ii < d {
            assert(l[ii] == '\t');
        } else if ii < d + nl {
            if l[ii] == '\n' {
                assert(name[ii - d] == '\n');
                assert(has_char(name, '\n'));
            }
        }
    }
    lemma_trim_is_trimmed(name);
    if nl == 0 {
        lemma_trim_is(l, d as int + 1, d as int + 2);
        let t = trim(l);
        assert(t =~= seq!['{']);
        assert(t[t.len() - 1] == '{');
        assert(t.subrange(0, 0) =~= Seq::<char>::empty());
        lemma_trim_all_ws(Seq::<char>::empty());
        assert(open_name(l) == Some(name)) by {
            assert(trim(t.subrange(0, 0)) =~= name);
        }
    } else {
        assert(is_trimmed(name));
        assert(!is_ws(l[d as int]));
        lemma_trim_is(l, d as int, l.len() as int);
        let t = trim(l);
        assert(t =~= name + seq![' ', '{']);
        assert(t.len() == nl + 2);
        if is_comment(l) {
            assert(t[0] == name[0] && t[0] == '/');
            if nl >= 2 {
                assert(t[1] == name[1]);
                assert(starts_comment(name));
            } else {
                assert(t[1] == ' ');
            }
        }
        assert(t[t.len() - 1] == '{');
        let sub = t.subrange(0, t.len() - 1);
        assert(sub =~= name + seq![' ']);
        lemma_trim_is(sub, 0, nl);
        assert(sub.subrange(0, nl) =~= name);
        assert(open_name(l) == Some(name));
    }
}

/// The serializer's property line is no event, is not passed over, and
/// parses back to exactly the property it came from.
#[verifier::rlimit(80)]
pub proof fn lemma_prop_line_classify(p: PropModel, d: nat)
    requires
        wf_prop(p),
    ensures
        !is_open_line(prop_line(p, d)),
        !is_close_line(prop_line(p, d)),
        !skip_line(prop_line(p, d)),
        prop_of_line(prop_line(p, d)) == Some(p),
        !has_char(prop_line(p, d), '\n'),
{
    let l = prop_line(p, d);
    let k = p.key;
    let kl = k.len() as int;
    lemma_trim_is_trimmed(k);
    match p.value {
        Some(v) => {
            let vl = v.len() as int;
            assert(l =~= tabs(d) + k + eq_sep() + v + seq![';']);
            assert(l.len() == d + kl + 3 + vl + 1);
            assert(forall|q: int| 0 <= q < d ==> #[trigger] l[q] == '\t');
            assert(forall|q: int| 0 <= q < kl ==> #[trigger] l[d + q] == k[q]);
            assert(l[d + kl] == ' ' && l[d + kl + 1] == '=' && l[d + kl + 2] == ' ');
            assert(forall|q: int| 0 <= q < vl ==> #[trigger] l[d + kl + 3 + q] == v[q]);
            assert(l[d + kl + 3 + vl] == ';');

            // no opening brace, no newline anywhere
            assert forall|ii: int| 0 <= ii < l.len() implies #[trigger] l[ii] != '{' && l[ii]
                != '\n' by {
                if ii < d {
                    assert(l[ii] == '\t');
                } else if ii < d + kl {
                    assert(l[ii] == k[ii - d]);
                    if l[ii] == '{' || l[ii] == '\n' {
                        assert(has_char(k, l[ii]));
                    }
                } else if ii < d + kl + 3 {
                } else if ii < d + kl + 3 + vl {
                    assert(l[ii] == v[ii - d - kl - 3]);
                    if l[ii] == '{' || l[ii] == '\n' {
                        assert(has_char(v, l[ii]));
                    }
                }
            }

            // no close marker anywhere
            lemma_contains2(l, close_pat());
            lemma_contains2(k, close_pat());
            lemma_contains2(v, close_pat());
            assert forall|ii: int|
                !(0 <= ii && ii + 1 < l.len() && #[trigger] l[ii] == '}' && l[ii + 1]
                    == ';') by {
                if 0 <= ii && ii + 1 < l.len() && l[ii] == '}' && l[ii + 1] == ';' {
                    if ii < d {
                        assert(l[ii] == '\t');
                    } else if ii + 1 < d + kl {
                        assert(k[ii - d] == '}' && k[ii - d + 1] == ';');
                    } else if ii < d + kl {
                        assert(l[ii + 1] == ' ');
                    } else if ii < d + kl + 3 {
                        assert(l[ii] == ' ' || l[ii] == '=');
                    } else if ii + 1 < d + kl + 3 + vl {
                        assert(v[ii - d - kl - 3] == '}' && v[ii - d - kl - 3 + 1] == ';');
                    } else if ii < d + kl + 3 + vl {
                        assert(l[ii] == v[vl - 1]);
                    } else {
                        assert(l[ii] == ';');
                    }
                }
            }

            // the trimmed line is key, separator, value, terminator
            let body = k + eq_sep() + v + seq![';'];
            assert(!is_ws(l[d as int]));
            assert(!is_ws(l[l.len() - 1]));
            lemma_trim_is(l, d as int, l.len() as int);
            let t = trim(l);
            assert(t =~= body);
            assert(t.len() == kl + 3 + vl + 1);

            // not a comment line
            if is_comment(l) {
                assert(t[0] == k[0] && t[0] == '/');
                if kl >= 2 {
                    assert(t[1] == k[1]);
                    assert(starts_comment(k));
                } else {
                    assert(t[1] == ' ');
                }
            }

            // the separator is found exactly at the end of the key
            assert(t.subrange(kl, kl + 3) =~= eq_sep());
            assert(match_at(t, eq_sep(), kl));
            lemma_contains3(k, eq_sep());
            assert forall|q: int| 0 <= q < kl implies !match_at(t, eq_sep(), q) by {
                if match_at(t, eq_sep(), q) {
                    lemma_match_at_index(t, eq_sep(), q, 0);
                    lemma_match_at_index(t, eq_sep(), q, 1);
                    lemma_match_at_index(t, eq_sep(), q, 2);
                    if q + 2 < kl {
                        assert(k[q] == ' ' && k[q + 1] == '=' && k[q + 2] == ' ');
                    } else if q + 2 == kl {
                        assert(k[kl - 2] == ' ' && k[kl - 1] == '=');
                    } else {
                        assert(q == kl - 1);
                        assert(is_ws(k[kl - 1]));
                    }
                }
            }
            lemma_find_at(t, eq_sep(), 0);
            assert(find_at(t, eq_sep(), 0) == Some(kl as int)) by {
                match find_at(t, eq_sep(), 0) {
                    Some(k0) => {
                        if k0 < kl {
                            assert(!match_at(t, eq_sep(), k0));
                        } else if k0 > kl {
                            assert(!match_at(t, eq_sep(), kl));
                        }
                    },
                    None => {
                        assert(!match_at(t, eq_sep(), kl));
                    },
                }
            }

            // the key and value are recovered verbatim
            assert(t.subrange(0, kl) =~= k);
            lemma_trimmed_fixpoint(k);
            let rsub = t.subrange(kl + 3, t.len() as int);
            assert(rsub =~= v + seq![';']);
            assert(rsub.len() == vl + 1);
            assert(!is_ws(rsub[0]));
            assert(!is_ws(rsub[rsub.len() - 1]));
            lemma_trimmed_fixpoint(rsub);
            assert(rsub[rsub.len() - 1] == ';');
            assert(rsub.subrange(0, vl) =~= v);
            assert(!(k.len() >= 2 && k[kl - 2] == ' ' && k[kl - 1] == '='));
            assert(prop_of_line(l) == Some(PropModel { key: k, value: Some(v) }));
            assert(p == PropModel { key: k, value: Some(v) });
        },
        None => {
            assert(l =~= tabs(d) + k + seq![';']);
            assert(l.len() == d + kl + 1);
            assert(forall|q: int| 0 <= q < d ==> #[trigger] l[q] == '\t');
            assert(forall|q: int| 0 <= q < kl ==> #[trigger] l[d + q] == k[q]);
            assert(l[d + kl] == ';');

            assert forall|ii: int| 0 <= ii < l.len() implies #[trigger] l[ii] != '{' && l[ii]
                != '\n' && l[ii] != '=' || ii < d by {
                if ii < d {
                } else if ii < d + kl {
                    assert(l[ii] == k[ii - d]);
                    if l[ii] == '{' || l[ii] == '\n' || l[ii] == '=' {
                        assert(has_char(k, l[ii]));
                    }
                }
            }
            assert forall|ii: int| 0 <= ii < l.len() implies #[trigger] l[ii] != '{' && l[ii]
                != '\n' by {
                if ii < d {
                    assert(l[ii] == '\t');
                }
            }

            lemma_contains2(l, close_pat());
            lemma_contains2(k, close_pat());
            assert forall|ii: int|
                !(0 <= ii && ii + 1 < l.len() && #[trigger] l[ii] == '}' && l[ii + 1]
                    == ';') by {
                if 0 <= ii && ii + 1 < l.len() && l[ii] == '}' && l[ii + 1] == ';' {
                    if ii < d {
                        assert(l[ii] == '\t');
                    } else if ii + 1 < d + kl {
                        assert(k[ii - d] == '}' && k[ii - d + 1] == ';');
                    } else if ii < d + kl {
                        assert(l[ii] == k[kl - 1]);
                    } else {
                        assert(l[ii] == ';');
                    }
                }
            }

            assert(!is_ws(l[d as int]));
            assert(!is_ws(l[l.len() - 1]));
            lemma_trim_is(l, d as int, l.len() as int);
            let t = trim(l);
            assert(t =~= k + seq![';']);
            assert(t.len() == kl + 1);

            if is_comment(l) {
                assert(t[0] == '/');
                if kl >= 2 {
                    assert(t[0] == k[0] && t[1] == k[1]);
                    assert(starts_comment(k));
                } else if kl == 1 {
                    assert(t[1] == ';');
                } else {
                    assert(t.len() == 1);
                }
            }

            lemma_find_at(t, eq_sep(), 0);
            assert(find_at(t, eq_sep(), 0) is None) by {
                match find_at(t, eq_sep(), 0) {
                    Some(k0) => {
                        lemma_match_at_index(t, eq_sep(), k0, 1);
                        assert(t[k0 + 1] == '=');
                        if k0 + 1 < kl {
                            assert(has_char(k, '='));
                        }
                    },
                    None => {},
                }
            }
            assert(!has_char(t, '=')) by {
                if has_char(t, '=') {
                    let q = choose|q: int| 0 <= q < t.len() && t[q] == '=';
                    if q < kl {
                        assert(has_char(k, '='));
                    }
                }
            }
            assert(t[t.len() - 1] == ';');
            assert(t.subrange(0, kl) =~= k);
            assert(prop_of_line(l) == Some(PropModel { key: k, value: None }));
            assert(p == PropModel { key: k, value: None });
        },
    }
}

// ---------------------------------------------------------------------
// Walking a serialized block with the model parser.
// ---------------------------------------------------------------------

/// Walking a run of serialized property lines prepends exactly those
/// properties to whatever the walk of the remaining lines produces.
pub proof fn lemma_rt_props(
    ps: Seq<PropModel>,
    d: nat,
    ls: Seq<Seq<char>>,
    j: int,
    fuel: nat,
    pr: Seq<PropModel>,
    cr: Seq<NodeModel>,
    e: int,
)
    requires
        forall|q: int| 0 <= q < ps.len() ==> wf_prop(#[trigger] ps[q]),
        0 <= j,
        j + ps.len() <= ls.len(),
        ls.subrange(j, j + ps.len()) == ser_props(ps, d),
        fuel >= ps.len(),
        parse_items(ls, j + ps.len(), (fuel - ps.len()) as nat) == Ok::<_, DtsError>(
            (pr, cr, e),
        ),
    ensures
        parse_items(ls, j, fuel) == Ok::<_, DtsError>((ps + pr, cr, e)),
    decreases ps.len(),
{
    if ps.len() == 0 {
        assert(ps + pr =~= pr);
    } else {
        let l0 = ls[j];
        assert(l0 == ls.subrange(j, j + ps.len())[0]);
        assert(l0 == prop_line(ps[0], d));
        lemma_prop_line_classify(ps[0], d);
        let ps2 = ps.drop_first();
        assert(ls.subrange(j + 1, j + 1 + ps2.len()) =~= ser_props(ps2, d)) by {
            assert forall|q: int| 0 <= q < ps2.len() implies ls.subrange(
                j + 1,
                j + 1 + ps2.len(),
            )[q] == ser_props(ps2, d)[q] by {
                assert(ls.subrange(j + 1, j + 1 + ps2.len())[q] == ls[j + 1 + q]);
                assert(ls[j + 1 + q] == ls.subrange(j, j + ps.len())[1 + q]);
                assert(ls[j + 1 + q] == prop_line(ps[1 + q], d));
                assert(ser_props(ps2, d)[q] == prop_line(ps2[q], d));
            }
        }
        assert((fuel - 1) as nat - ps2.len() == fuel - ps.len());
        lemma_rt_props(ps2, d, ls, j + 1, (fuel - 1) as nat, pr, cr, e);
        assert(seq![ps[0]] + (ps2 + pr) =~= ps + pr);
        assert(parse_items(ls, j, fuel) == Ok::<_, DtsError>((ps + pr, cr, e)));
    }
}

/// Walking serialized child blocks separated by blank lines yields
/// exactly those children, ending at the parent's close event.
pub proof fn lemma_rt_kids(cs: Seq<NodeModel>, d: nat, ls: Seq<Seq<char>>, j: int, fuel: nat, e: int)
    requires
        forall|q: int| 0 <= q < cs.len() ==> wf_node(#[trigger] cs[q]),
        0 <= j,
        e == j + ser_children(cs, d).len(),
        e < ls.len(),
        ls.subrange(j, e) == ser_children(cs, d),
        is_close_line(ls[e]),
        fuel >= ser_children(cs, d).len() + 1,
    ensures
        parse_items(ls, j, fuel) == Ok::<_, DtsError>((Seq::<PropModel>::empty(), cs, e)),
    decreases cs, 1int,
{
    if cs.len() == 0 {
        assert(ser_children(cs, d).len() == 0);
        assert(j == e);
        assert(Seq::<NodeModel>::empty() =~= cs);
        assert(parse_items(ls, j, fuel) == Ok::<_, DtsError>((Seq::<PropModel>::empty(), cs, e)));
    } else {
        let b0 = ser_lines(cs[0], d);
        let lb0 = b0.len() as int;
        let sc = ser_children(cs, d);
        let cs2 = cs.drop_first();
        // the first child's block sits at the front of the run
        assert forall|q: int| 0 <= q < lb0 implies ls[j + q] == b0[q] by {
            assert(ls[j + q] == ls.subrange(j, e)[q]);
            if cs.len() == 1 {
                assert(sc[q] == b0[q]);
            } else {
                assert(sc == b0 + seq![Seq::<char>::empty()] + ser_children(cs2, d));
                assert(sc[q] == b0[q]);
            }
        }
        assert(ls.subrange(j, j + lb0) =~= b0);
        assert(b0[0] == tabs(d) + cs[0].name + seq![' ', '{']);
        assert(wf_node(cs[0]));
        lemma_header_line(cs[0].name, d);
        assert(is_open_line(ls[j]));
        assert(fuel >= lb0);
        lemma_rt_node(cs[0], d, ls, j, fuel);
        assert(parse_node(ls, j, fuel) == Ok::<_, DtsError>((cs[0], j + lb0 - 1)));
        if cs.len() == 1 {
            assert(sc == b0);
            assert(j + lb0 == e);
            assert(ser_children(cs2, d).len() == 0);
            assert(ls.subrange(e, e) =~= ser_children(cs2, d));
            lemma_rt_kids(cs2, d, ls, e, (fuel - 1) as nat, e);
            assert(parse_items(ls, j + lb0, (fuel - 1) as nat) == Ok::<_, DtsError>(
                (Seq::<PropModel>::empty(), cs2, e),
            ));
            assert(seq![cs[0]] + cs2 =~= cs);
            assert(parse_items(ls, j, fuel) == Ok::<_, DtsError>((Seq::<PropModel>::empty(), cs, e)));
        } else {
            assert(sc == b0 + seq![Seq::<char>::empty()] + ser_children(cs2, d));
            let sep_at = j + lb0;
            assert(ls[sep_at] == ls.subrange(j, e)[lb0]);
            assert(ls[sep_at] == Seq::<char>::empty());
            lemma_blank_line();
            assert(ls.subrange(sep_at + 1, e) =~= ser_children(cs2, d)) by {
                assert forall|q: int| 0 <= q < ser_children(cs2, d).len() implies ls.subrange(
                    sep_at + 1,
                    e,
                )[q] == ser_children(cs2, d)[q] by {
                    assert(ls.subrange(sep_at + 1, e)[q] == ls[sep_at + 1 + q]);
                    assert(ls[sep_at + 1 + q] == ls.subrange(j, e)[lb0 + 1 + q]);
                    assert(sc[lb0 + 1 + q] == ser_children(cs2, d)[q]);
                }
            }
            lemma_rt_kids(cs2, d, ls, sep_at + 1, (fuel - 2) as nat, e);
            assert(parse_items(ls, sep_at + 1, (fuel - 2) as nat) == Ok::<_, DtsError>(
                (Seq::<PropModel>::empty(), cs2, e),
            ));
            assert(((fuel - 1) as nat - 1) as nat == (fuel - 2) as nat);
            assert(parse_items(ls, sep_at, (fuel - 1) as nat) == Ok::<_, DtsError>(
                (Seq::<PropModel>::empty(), cs2, e),
            ));
            assert(seq![cs[0]] + cs2 =~= cs);
            assert(parse_items(ls, j, fuel) == Ok::<_, DtsError>((Seq::<PropModel>::empty(), cs, e)));
        }
    }
}

/// Parsing a serialized node block from its first line rebuilds exactly
/// the node, ending at its close line.
#[verifier::rlimit(100)]
pub proof fn lemma_rt_node(m: NodeModel, d: nat, ls: Seq<Seq<char>>, i: int, fuel: nat)
    requires
        wf_node(m),
        0 <= i,
        i + ser_lines(m, d).len() <= ls.len(),
        ls.subrange(i, i + ser_lines(m, d).len()) == ser_lines(m, d),
        fuel >= ser_lines(m, d).len(),
    ensures
        parse_node(ls, i, fuel) == Ok::<_, DtsError>((m, i + ser_lines(m, d).len() - 1)),
    decreases m, 0int,
{
    let b = ser_lines(m, d);
    let lb = b.len() as int;
    let np = m.props.len() as int;
    let s: int = if m.children.len() > 0 {
        1
    } else {
        0
    };
    let kl = ser_children(m.children, (d + 1) as nat).len() as int;
    let hline = tabs(d) + m.name + seq![' ', '{'];
    let cline = tabs(d) + close_pat();
    let sepb: Seq<Seq<char>> = if m.children.len() > 0 {
        seq![Seq::<char>::empty()]
    } else {
        Seq::<Seq<char>>::empty()
    };
    assert(b == seq![hline] + ser_props(m.props, (d + 1) as nat) + sepb + ser_children(
        m.children,
        (d + 1) as nat,
    ) + seq![cline]);
    assert(lb == 1 + np + s + kl + 1);
    assert forall|q: int| 0 <= q < lb implies ls[i + q] == b[q] by {
        assert(ls[i + q] == ls.subrange(i, i + lb)[q]);
    }
    let e = i + lb - 1;
    assert(ls[i + 0] == b[0]);
    assert(b[0] == hline);
    assert(ls[i + (lb - 1)] == b[lb - 1]);
    assert(b[lb - 1] == cline);
    assert(ls[i] == hline);
    assert(ls[e] == cline);
    lemma_header_line(m.name, d);
    lemma_close_line(d);
    assert(is_close_line(ls[e]));

    // the children's blocks
    let jk = i + 1 + np + s;
    assert(ls.subrange(jk, e) =~= ser_children(m.children, (d + 1) as nat)) by {
        assert forall|q: int| 0 <= q < kl implies ls.subrange(jk, e)[q] == ser_children(
            m.children,
            (d + 1) as nat,
        )[q] by {
            assert(ls.subrange(jk, e)[q] == ls[jk + q]);
            assert(ls[jk + q] == b[1 + np + s + q]);
            assert(b[1 + np + s + q] == ser_children(m.children, (d + 1) as nat)[q]);
        }
    }
    let fk = (fuel - 1 - np - s) as nat;
    lemma_rt_kids(m.children, (d + 1) as nat, ls, jk, fk, e);
    assert(parse_items(ls, jk, fk) == Ok::<_, DtsError>((Seq::<PropModel>::empty(), m.children, e)));

    // the blank separator before the children, if any
    if s == 1 {
        let sep_at = i + 1 + np;
        assert(ls[sep_at] == b[1 + np]);
        assert(ls[sep_at] == Seq::<char>::empty());
        lemma_blank_line();
        assert(((fuel - 1 - np) as nat - 1) as nat == fk);
        assert(parse_items(ls, sep_at, (fuel - 1 - np) as nat) == Ok::<_, DtsError>(
            (Seq::<PropModel>::empty(), m.children, e),
        ));
    }

    // the property block
    assert(ls.subrange(i + 1, i + 1 + np) =~= ser_props(m.props, (d + 1) as nat)) by {
        assert forall|q: int| 0 <= q < np implies #[trigger] ls.subrange(i + 1, i + 1 + np)[q]
            == ser_props(m.props, (d + 1) as nat)[q] by {
            assert(ls.subrange(i + 1, i + 1 + np)[q] == ls[i + 1 + q]);
            assert(ls[i + 1 + q] == b[1 + q]);
            assert(b[1 + q] == ser_props(m.props, (d + 1) as nat)[q]);
        }
    }
    assert((fuel - 1) as nat - np == (fuel - 1 - np) as nat);
    lemma_rt_props(
        m.props,
        (d + 1) as nat,
        ls,
        i + 1,
        (fuel - 1) as nat,
        Seq::empty(),
        m.children,
        e,
    );
    assert(m.props + Seq::<PropModel>::empty() =~= m.props);
    assert(parse_items(ls, i + 1, (fuel - 1) as nat) == Ok::<_, DtsError>(
        (m.props, m.children, e),
    ));

    // the node itself
    assert(open_name(ls[i]) == Some(m.name));
    assert(m == NodeModel { name: m.name, props: m.props, children: m.children });
    assert(parse_node(ls, i, fuel) == Ok::<_, DtsError>((m, e)));
}

// ---------------------------------------------------------------------
// Every tree the parser builds is well formed.
// ---------------------------------------------------------------------

/// A pattern occurring in a subrange occurs in the whole.
pub proof fn lemma_sub_contains(s: Seq<char>, a: int, b: int, pat: Seq<char>)
    requires
        0 <= a <= b <= s.len(),
        !contains_seq(s, pat),
    ensures
        !contains_seq(s.subrange(a, b), pat),
{
    let sub = s.subrange(a, b);
    if contains_seq(sub, pat) {
        let q = choose|q: int| match_at(sub, pat, q);
        assert(s.subrange(a + q, a + q + pat.len()) =~= pat) by {
            assert(sub.subrange(q, q + pat.len()) == pat);
            assert forall|w: int| 0 <= w < pat.len() implies s.subrange(
                a + q,
                a + q + pat.len(),
            )[w] == pat[w] by {
                lemma_match_at_index(sub, pat, q, w);
            }
        }
        assert(match_at(s, pat, a + q));
    }
}

/// A pattern occurring in a trim occurs in the whole.
pub proof fn lemma_trim_contains(s: Seq<char>, pat: Seq<char>)
    requires
        !contains_seq(s, pat),
    ensures
        !contains_seq(trim(s), pat),
{
    crate::text::lemma_trim_range(s);
    let lo = first_non_ws(s, 0);
    if lo == s.len() {
        if contains_seq(trim(s), pat) {
            let q = choose|q: int| match_at(trim(s), pat, q);
            assert(trim(s).subrange(q, q + pat.len()) == pat);
            assert(pat =~= Seq::<char>::empty());
            assert(s.subrange(0, 0) =~= pat);
            assert(match_at(s, pat, 0));
        }
    } else {
        lemma_sub_contains(s, lo, last_non_ws(s, s.len() as int), pat);
    }
}

/// A name recovered from an open event is well formed.
pub proof fn lemma_open_name_wf(l: Seq<char>)
    requires
        is_open_line(l),
        !has_char(l, '\n'),
    ensures
        open_name(l) matches Some(nm) ==> wf_name(nm),
{
    let t = trim(l);
    lemma_trim_is_trimmed(l);
    lemma_trim_has_char(l, '\n');
    if t.len() >= 1 && t[t.len() - 1] == '{' {
        let sub = t.subrange(0, t.len() - 1);
        let nm = trim(sub);
        lemma_trim_is_trimmed(sub);
        lemma_sub_has_char(t, 0, t.len() - 1, '\n');
        lemma_trim_has_char(sub, '\n');
        if nm.len() >= 2 && nm[0] == '/' && nm[1] == '/' {
            assert(sub.len() >= 1);
            assert(!is_ws(t[0]));
            assert(sub[0] == t[0]);
            lemma_fnw_is(sub, 0, 0);
            crate::text::lemma_trim_range(sub);
            let hi = last_non_ws(sub, sub.len() as int);
            assert(nm == sub.subrange(0, hi));
            assert(nm[0] == sub[0] && nm[1] == sub[1]);
            assert(t[0] == '/' && t[1] == '/');
            assert(is_comment(l));
        }
    }
}

/// A property recovered from a body line is well formed.
#[verifier::rlimit(80)]
pub proof fn lemma_prop_wf(l: Seq<char>)
    requires
        !is_open_line(l),
        !is_close_line(l),
        !skip_line(l),
        !has_char(l, '\n'),
    ensures
        prop_of_line(l) matches Some(p) ==> wf_prop(p),
{
    let t = trim(l);
    assert(!is_comment(l) && t.len() > 0);
    assert(!has_char(l, '{'));
    assert(!contains_seq(l, close_pat()));
    lemma_trim_is_trimmed(l);
    lemma_trim_has_char(l, '\n');
    lemma_trim_has_char(l, '{');
    lemma_trim_contains(l, close_pat());
    let tl = t.len() as int;
    match find_at(t, eq_sep(), 0) {
        Some(k) => {
            lemma_find_at(t, eq_sep(), 0);
            lemma_match_at_index(t, eq_sep(), k, 0);
            assert(k >= 1) by {
                if k == 0 {
                    assert(is_ws(t[0]));
                }
            }
            let sub = t.subrange(0, k);
            let key = trim(sub);
            lemma_trim_is_trimmed(sub);
            lemma_sub_has_char(t, 0, k, '\n');
            lemma_sub_has_char(t, 0, k, '{');
            lemma_sub_contains(t, 0, k, close_pat());
            lemma_trim_has_char(sub, '\n');
            lemma_trim_has_char(sub, '{');
            lemma_trim_contains(sub, close_pat());
            assert(sub[0] == t[0] && !is_ws(sub[0]));
            lemma_fnw_is(sub, 0, 0);
            crate::text::lemma_trim_range(sub);
            let hi = last_non_ws(sub, sub.len() as int);
            assert(key == sub.subrange(0, hi));
            assert(key.len() >= 1);
            if starts_comment(key) {
                assert(key[0] == sub[0] && key[1] == sub[1]);
                assert(t[0] == '/' && t[1] == '/');
                assert(is_comment(l));
            }
            assert(!contains_seq(key, eq_sep())) by {
                lemma_contains3(key, eq_sep());
                if exists|q: int|
                    0 <= q && q + 2 < key.len() && #[trigger] key[q] == ' ' && key[q + 1] == '='
                        && key[q + 2] == ' ' {
                    let q = choose|q: int|
                        0 <= q && q + 2 < key.len() && #[trigger] key[q] == ' ' && key[q + 1]
                            == '=' && key[q + 2] == ' ';
                    assert(key[q] == sub[q] && key[q + 1] == sub[q + 1] && key[q + 2] == sub[q
                        + 2]);
                    assert(t.subrange(q, q + 3) =~= eq_sep());
                    assert(match_at(t, eq_sep(), q));
                    assert(q < k);
                    assert(!match_at(t, eq_sep(), q));
                }
            }
            let rsub = t.subrange(k + 3, tl);
            let rest = trim(rsub);
            lemma_trim_is_trimmed(rsub);
            lemma_sub_has_char(t, k + 3, tl, '\n');
            lemma_sub_has_char(t, k + 3, tl, '{');
            lemma_sub_contains(t, k + 3, tl, close_pat());
            lemma_trim_has_char(rsub, '\n');
            lemma_trim_has_char(rsub, '{');
            lemma_trim_contains(rsub, close_pat());
            if rest.len() >= 1 && rest[rest.len() - 1] == ';' {
                let rl = rest.len() as int;
                let v = rest.subrange(0, rl - 1);
                lemma_sub_has_char(rest, 0, rl - 1, '\n');
                lemma_sub_has_char(rest, 0, rl - 1, '{');
                lemma_sub_contains(rest, 0, rl - 1, close_pat());
                if v.len() > 0 && v[v.len() - 1] == '}' {
                    lemma_contains2(rest, close_pat());
                    assert(rest[rl - 2] == '}' && rest[rl - 1] == ';');
                }
                if v.len() > 0 {
                    assert(v[0] == rest[0]);
                }
            }
        },
        None => {
            if !has_char(t, '=') && t.len() >= 1 && t[tl - 1] == ';' {
                let key = t.subrange(0, tl - 1);
                lemma_sub_has_char(t, 0, tl - 1, '\n');
                lemma_sub_has_char(t, 0, tl - 1, '{');
                lemma_sub_has_char(t, 0, tl - 1, '=');
                lemma_sub_contains(t, 0, tl - 1, close_pat());
                if starts_comment(key) {
                    assert(key[0] == t[0] && key[1] == t[1]);
                    assert(is_comment(l));
                }
                if key.len() > 0 {
                    assert(key[0] == t[0] && !is_ws(key[0]));
                    if key[key.len() - 1] == '}' {
                        lemma_contains2(t, close_pat());
                        assert(t[tl - 2] == '}' && t[tl - 1] == ';');
                    }
                }
            }
        },
    }
}

/// Every node a successful parse builds is well formed.
pub proof fn lemma_parse_wf_node(ls: Seq<Seq<char>>, i: int, fuel: nat)
    requires
        forall|q: int| 0 <= q < ls.len() ==> !has_char(#[trigger] ls[q], '\n'),
        0 <= i < ls.len() ==> is_open_line(ls[i]),
    ensures
        parse_node(ls, i, fuel) matches Ok(r) ==> wf_node(r.0),
    decreases fuel, 0int,
{
    if 0 <= i < ls.len() {
        lemma_open_name_wf(ls[i]);
        if fuel > 0 {
            lemma_parse_wf_items(ls, i + 1, (fuel - 1) as nat);
        }
    }
}

/// Every property and child a successful body walk builds is well
/// formed.
pub proof fn lemma_parse_wf_items(ls: Seq<Seq<char>>, i: int, fuel: nat)
    requires
        forall|q: int| 0 <= q < ls.len() ==> !has_char(#[trigger] ls[q], '\n'),
    ensures
        parse_items(ls, i, fuel) matches Ok(r) ==> (forall|q: int|
            0 <= q < r.0.len() ==> wf_prop(#[trigger] r.0[q])) && (forall|q: int|
            0 <= q < r.1.len() ==> wf_node(#[trigger] r.1[q])),
    decreases fuel, 1int,
{
    if 0 <= i < ls.len() && fuel > 0 {
        if is_open_line(ls[i]) {
            lemma_parse_wf_node(ls, i, fuel);
            match parse_node(ls, i, fuel) {
                Ok(r) => {
                    lemma_parse_wf_items(ls, r.1 + 1, (fuel - 1) as nat);
                    match parse_items(ls, r.1 + 1, (fuel - 1) as nat) {
                        Ok(r2) => {
                            assert forall|q: int|
                                0 <= q < (seq![r.0] + r2.1).len() implies wf_node(
                                #[trigger] (seq![r.0] + r2.1)[q],
                            ) by {
                                if q > 0 {
                                    assert((seq![r.0] + r2.1)[q] == r2.1[q - 1]);
                                }
                            }
                        },
                        Err(_) => (),
                    }
                },
                Err(_) => (),
            }
        } else if is_close_line(ls[i]) {
        } else if skip_line(ls[i]) {
            lemma_parse_wf_items(ls, i + 1, (fuel - 1) as nat);
        } else {
            lemma_prop_wf(ls[i]);
            match prop_of_line(ls[i]) {
                Some(p) => {
                    lemma_parse_wf_items(ls, i + 1, (fuel - 1) as nat);
                    match parse_items(ls, i + 1, (fuel - 1) as nat) {
                        Ok(r2) => {
                            assert forall|q: int|
                                0 <= q < (seq![p] + r2.0).len() implies wf_prop(
                                #[trigger] (seq![p] + r2.0)[q],
                            ) by {
                                if q > 0 {
                                    assert((seq![p] + r2.0)[q] == r2.0[q - 1]);
                                }
                            }
                        },
                        Err(_) => (),
                    }
                },
                None => (),
            }
        }
    }
}

// ---------------------------------------------------------------------
// The round trip itself.
// ---------------------------------------------------------------------

pub proof fn lemma_first_open_range(ls: Seq<Seq<char>>, i: int)
    requires
        0 <= i <= ls.len(),
    ensures
        crate::model::first_open(ls, i) matches Some(k) ==> i <= k < ls.len() && is_open_line(
            ls[k],
        ),
    decreases ls.len() - i,
{
    if i < ls.len() && !is_open_line(ls[i]) {
        lemma_first_open_range(ls, i + 1);
    }
}

/// No line of a well-formed node's serialization contains a newline.
#[verifier::rlimit(100)]
pub proof fn lemma_ser_no_nl(m: NodeModel, d: nat)
    requires
        wf_node(m),
    ensures
        forall|q: int|
            0 <= q < ser_lines(m, d).len() ==> !has_char(#[trigger] ser_lines(m, d)[q], '\n'),
    decreases m, 0int,
{
    let b = ser_lines(m, d);
    let np = m.props.len() as int;
    let s: int = if m.children.len() > 0 {
        1
    } else {
        0
    };
    let kl = ser_children(m.children, (d + 1) as nat).len() as int;
    lemma_header_line(m.name, d);
    lemma_close_line(d);
    lemma_blank_line();
    lemma_ser_children_no_nl(m.children, (d + 1) as nat);
    assert forall|q: int| 0 <= q < b.len() implies !has_char(#[trigger] b[q], '\n') by {
        if q == 0 {
        } else if q < 1 + np {
            assert(b[q] == crate::model::prop_line(m.props[q - 1], (d + 1) as nat));
            lemma_prop_line_classify(m.props[q - 1], (d + 1) as nat);
        } else if q < 1 + np + s {
            assert(b[q] == Seq::<char>::empty());
        } else if q < 1 + np + s + kl {
            assert(b[q] == ser_children(m.children, (d + 1) as nat)[q - 1 - np - s]);
        } else {
            assert(b[q] == tabs(d) + close_pat());
        }
    }
}

pub proof fn lemma_ser_children_no_nl(cs: Seq<NodeModel>, d: nat)
    requires
        forall|q: int| 0 <= q < cs.len() ==> wf_node(#[trigger] cs[q]),
    ensures
        forall|q: int|
            0 <= q < ser_children(cs, d).len() ==> !has_char(
                #[trigger] ser_children(cs, d)[q],
                '\n',
            ),
    decreases cs, 1int,
{
    if cs.len() == 0 {
    } else if cs.len() == 1 {
        lemma_ser_no_nl(cs[0], d);
        assert(ser_children(cs, d) == ser_lines(cs[0], d));
        assert forall|q: int| 0 <= q < ser_children(cs, d).len() implies !has_char(
            #[trigger] ser_children(cs, d)[q],
            '\n',
        ) by {
            assert(ser_children(cs, d)[q] == ser_lines(cs[0], d)[q]);
        }
    } else {
        let b0 = ser_lines(cs[0], d);
        let lb0 = b0.len() as int;
        lemma_ser_no_nl(cs[0], d);
        lemma_ser_children_no_nl(cs.drop_first(), d);
        lemma_blank_line();
        assert forall|q: int| 0 <= q < ser_children(cs, d).len() implies !has_char(
            #[trigger] ser_children(cs, d)[q],
            '\n',
        ) by {
            if q < lb0 {
                assert(ser_children(cs, d)[q] == b0[q]);
            } else if q == lb0 {
                assert(ser_children(cs, d)[q] == Seq::<char>::empty());
            } else {
                assert(ser_children(cs, d)[q] == ser_children(cs.drop_first(), d)[q - lb0 - 1]);
            }
        }
    }
}

/// Every tree a successful parse of source text builds is well formed.
pub proof fn lemma_load_wf(text: Seq<char>)
    ensures
        crate::model::load_spec(text) matches Ok(m) ==> wf_node(m),
{
    let ls = crate::text::split_lines(text);
    crate::text::lemma_split_lines_no_nl(text);
    crate::text::lemma_split_lines_len(text);
    lemma_first_open_range(ls, 0);
    match crate::model::first_open(ls, 0) {
        Some(k) => {
            lemma_parse_wf_node(ls, k, ls.len() as nat);
        },
        None => (),
    }
}

/// The round-trip law: a tree produced by parsing, rendered back to
/// text and parsed again, is reproduced exactly — same name, same
/// ordered properties, same ordered children, recursively.
pub proof fn lemma_round_trip(text: Seq<char>, m: NodeModel)
    requires
        crate::model::load_spec(text) == Ok::<NodeModel, DtsError>(m),
    ensures
        crate::model::load_spec(crate::model::stringify_spec(m, 0)) == Ok::<
            NodeModel,
            DtsError,
        >(m),
{
    lemma_load_wf(text);
    assert(wf_node(m));
    let b = ser_lines(m, 0);
    let lb = b.len() as int;
    lemma_ser_no_nl(m, 0);
    lemma_header_line(m.name, 0);
    assert(b[0] == tabs(0) + m.name + seq![' ', '{']);
    assert(lb >= 2);
    if m.name == crate::model::root_name() {
        let hdr = crate::model::dts_header();
        assert(!has_char(hdr, '\n')) by {
            assert forall|w: int| 0 <= w < hdr.len() implies hdr[w] != '\n' by {}
        }
        assert(!has_char(hdr, '{')) by {
            assert forall|w: int| 0 <= w < hdr.len() implies hdr[w] != '{' by {}
        }
        lemma_blank_line();
        let pre = seq![hdr, Seq::<char>::empty()] + b;
        assert forall|q: int| 0 <= q < pre.len() implies !has_char(#[trigger] pre[q], '\n') by {
            if q >= 2 {
                assert(pre[q] == b[q - 2]);
            }
        }
        crate::text::lemma_split_unlines(pre);
        let ls2 = pre + seq![Seq::<char>::empty()];
        assert(crate::text::split_lines(crate::model::stringify_spec(m, 0)) == ls2);
        assert(ls2[0] == hdr && ls2[1] == Seq::<char>::empty() && ls2[2] == b[0]);
        assert(!is_open_line(ls2[0]));
        assert(!is_open_line(ls2[1]));
        assert(is_open_line(ls2[2]));
        assert(crate::model::first_open(ls2, 0) == crate::model::first_open(ls2, 1));
        assert(crate::model::first_open(ls2, 1) == crate::model::first_open(ls2, 2));
        assert(crate::model::first_open(ls2, 2) == Some(2int));
        assert(ls2.subrange(2, 2 + lb) =~= b);
        assert(ls2.len() == lb + 3);
        lemma_rt_node(m, 0, ls2, 2, ls2.len() as nat);
        assert(parse_node(ls2, 2, ls2.len() as nat) == Ok::<_, DtsError>((m, 2 + lb - 1)));
    } else {
        crate::text::lemma_split_unlines(b);
        let ls2 = b + seq![Seq::<char>::empty()];
        assert(crate::text::split_lines(crate::model::stringify_spec(m, 0)) == ls2);
        assert(ls2[0] == b[0]);
        assert(is_open_line(ls2[0]));
        assert(crate::model::first_open(ls2, 0) == Some(0int));
        assert(ls2.subrange(0, lb) =~= b);
        assert(ls2.len() == lb + 1);
        lemma_rt_node(m, 0, ls2, 0, ls2.len() as nat);
        assert(parse_node(ls2, 0, ls2.len() as nat) == Ok::<_, DtsError>((m, lb - 1)));
    }
}

/// Lines on which the body walk never stops: open events with valid
/// headers, lines to pass over, and classifiable property lines.
pub open spec fn walkable_line(l: Seq<char>) -> bool {
    if is_open_line(l) {
        open_name(l) is Some
    } else {
        skip_line(l) || prop_of_line(l) is Some
    }
}

proof fn lemma_exists_open_found(ls: Seq<Seq<char>>, i: int)
    requires
        0 <= i <= ls.len(),
        exists|q: int| i <= q < ls.len() && is_open_line(#[trigger] ls[q]),
    ensures
        crate::model::first_open(ls, i) is Some,
    decreases ls.len() - i,
{
    if i < ls.len() && !is_open_line(ls[i]) {
        let q = choose|q: int| i <= q < ls.len() && is_open_line(#[trigger] ls[q]);
        assert(i + 1 <= q < ls.len() && is_open_line(ls[q]));
        lemma_exists_open_found(ls, i + 1);
    }
}

proof fn lemma_walk_node_unmatched(ls: Seq<Seq<char>>, i: int, fuel: nat)
    requires
        forall|q: int| 0 <= q < ls.len() ==> walkable_line(#[trigger] ls[q]),
        forall|q: int| 0 <= q < ls.len() ==> !is_close_line(#[trigger] ls[q]),
        0 <= i,
        0 <= i < ls.len() ==> is_open_line(ls[i]),
    ensures
        parse_node(ls, i, fuel) == Err::<(NodeModel, int), DtsError>(
            DtsError::UnmatchedBracket,
        ),
    decreases fuel, 0int,
{
    if i < ls.len() && fuel > 0 {
        lemma_walk_items_unmatched(ls, i + 1, (fuel - 1) as nat);
    }
}

proof fn lemma_walk_items_unmatched(ls: Seq<Seq<char>>, i: int, fuel: nat)
    requires
        forall|q: int| 0 <= q < ls.len() ==> walkable_line(#[trigger] ls[q]),
        forall|q: int| 0 <= q < ls.len() ==> !is_close_line(#[trigger] ls[q]),
        0 <= i,
    ensures
        parse_items(ls, i, fuel) == Err::<(Seq<PropModel>, Seq<NodeModel>, int), DtsError>(
            DtsError::UnmatchedBracket,
        ),
    decreases fuel, 1int,
{
    if i < ls.len() && fuel > 0 {
        if is_open_line(ls[i]) {
            lemma_walk_node_unmatched(ls, i, fuel);
        } else if skip_line(ls[i]) {
            lemma_walk_items_unmatched(ls, i + 1, (fuel - 1) as nat);
        } else {
            lemma_walk_items_unmatched(ls, i + 1, (fuel - 1) as nat);
        }
    }
}

/// Unmatched bracket detection: when every line of the input
/// classifies as an event, a blank, a comment, or a property, and some
/// open event has no close event anywhere after it, parsing fails with
/// exactly `UnmatchedBracket` — it neither panics nor returns a
/// partial tree.
pub proof fn lemma_unmatched_bracket(text: Seq<char>)
    requires
        forall|q: int|
            0 <= q < crate::text::split_lines(text).len() ==> walkable_line(
                #[trigger] crate::text::split_lines(text)[q],
            ),
        forall|q: int|
            0 <= q < crate::text::split_lines(text).len() ==> !is_close_line(
                #[trigger] crate::text::split_lines(text)[q],
            ),
        exists|q: int|
            0 <= q < crate::text::split_lines(text).len() && is_open_line(
                #[trigger] crate::text::split_lines(text)[q],
            ),
    ensures
        crate::model::load_spec(text) == Err::<NodeModel, DtsError>(DtsError::UnmatchedBracket),
{
    let ls = crate::text::split_lines(text);
    lemma_exists_open_found(ls, 0);
    lemma_first_open_range(ls, 0);
    match crate::model::first_open(ls, 0) {
        Some(k) => {
            lemma_walk_node_unmatched(ls, k, ls.len() as nat);
        },
        None => (),
    }
}

/// A parse never silently returns a tree for input without a matching
/// close event: a successful parse always consumed a close line.
pub proof fn lemma_ok_has_close(text: Seq<char>)
    ensures
        crate::model::load_spec(text) matches Ok(m) ==> exists|q: int|
            0 <= q < crate::text::split_lines(text).len() && is_close_line(
                #[trigger] crate::text::split_lines(text)[q],
            ),
{
    let ls = crate::text::split_lines(text);
    match crate::model::first_open(ls, 0) {
        Some(k) => {
            crate::model::lemma_parse_node_bounds(ls, k, ls.len() as nat);
        },
        None => (),
    }
}

// ---------------------------------------------------------------------
// Shape of a property's rendering.
// ---------------------------------------------------------------------

/// A boolean property serializes with no equals sign and no value
/// segment: only its key and the statement terminator.
pub proof fn lemma_boolean_prop_shape(p: PropModel, d: nat)
    requires
        p.value is None,
    ensures
        prop_line(p, d) == tabs(d) + p.key + seq![';'],
{
}

/// A valued property serializes with exactly the stored raw value text,
/// unmodified, between the padded equals sign and the terminator.
pub proof fn lemma_valued_prop_shape(p: PropModel, v: Seq<char>, d: nat)
    requires
        p.value == Some(v),
    ensures
        prop_line(p, d) == tabs(d) + p.key + eq_sep() + v + seq![';'],
{
}

} // verus!
