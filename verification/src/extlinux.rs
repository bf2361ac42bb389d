//! A parser for extlinux boot configuration text: global settings, a
//! sequence of labelled boot entries, and lookup of the default entry.
//! Every field holds the value of the last line that carries its tag.

use vstd::prelude::*;
use vstd::string::*;
use crate::text::{line_views, split_to_lines, starts_with, starts_with_str, str_eq, trim, trim_str};

verus! {

broadcast use vstd::seq::group_seq_axioms, vstd::std_specs::vec::group_vec_axioms;

/// The ways reading a configuration can fail.
#[derive(Debug, PartialEq, Eq, Structural, Clone, Copy)]
pub enum ExtlinuxError {
    /// A `TIMEOUT` line whose value is not an unsigned decimal number in
    /// range.
    InvalidTimeout,
}

/// The model of one boot entry.
pub struct EntryModel {
    pub label: Option<Seq<char>>,
    pub menu_label: Option<Seq<char>>,
    pub linux: Option<Seq<char>>,
    pub fdt: Option<Seq<char>>,
    pub initrd: Option<Seq<char>>,
    pub append: Option<Seq<char>>,
}

pub open spec fn tag_label() -> Seq<char> {
    seq!['L', 'A', 'B', 'E', 'L']
}

pub open spec fn tag_menu_label() -> Seq<char> {
    seq!['M', 'E', 'N', 'U', ' ', 'L', 'A', 'B', 'E', 'L']
}

pub open spec fn tag_linux() -> Seq<char> {
    seq!['L', 'I', 'N', 'U', 'X']
}

pub open spec fn tag_fdt() -> Seq<char> {
    seq!['F', 'D', 'T']
}

pub open spec fn tag_initrd() -> Seq<char> {
    seq!['I', 'N', 'I', 'T', 'R', 'D']
}

pub open spec fn tag_append() -> Seq<char> {
    seq!['A', 'P', 'P', 'E', 'N', 'D']
}

pub open spec fn tag_timeout() -> Seq<char> {
    seq!['T', 'I', 'M', 'E', 'O', 'U', 'T']
}

pub open spec fn tag_default() -> Seq<char> {
    seq!['D', 'E', 'F', 'A', 'U', 'L', 'T']
}

pub open spec fn tag_menu_title() -> Seq<char> {
    seq!['M', 'E', 'N', 'U', ' ', 'T', 'I', 'T', 'L', 'E']
}

/// The trimmed text after `tag` on the last line carrying it, scanning
/// the raw line for `LABEL`-style tags and the trimmed line otherwise.
pub open spec fn last_tag_value(ls: Seq<Seq<char>>, tag: Seq<char>, trim_line: bool) -> Option<
    Seq<char>,
>
    decreases ls.len(),
{
    if ls.len() == 0 {
        None
    } else {
        let l = ls.last();
        let t = if trim_line {
            trim(l)
        } else {
            l
        };
        if starts_with(t, tag) {
            Some(trim(t.subrange(tag.len() as int, t.len() as int)))
        } else {
            last_tag_value(ls.drop_last(), tag, trim_line)
        }
    }
}

/// The entry that a run of lines yields on top of earlier values.
pub open spec fn entry_update(old: EntryModel, ls: Seq<Seq<char>>) -> EntryModel {
    EntryModel {
        label: match last_tag_value(ls, tag_label(), false) {
            Some(v) => Some(v),
            None => old.label,
        },
        menu_label: match last_tag_value(ls, tag_menu_label(), true) {
            Some(v) => Some(v),
            None => old.menu_label,
        },
        linux: match last_tag_value(ls, tag_linux(), true) {
            Some(v) => Some(v),
            None => old.linux,
        },
        fdt: match last_tag_value(ls, tag_fdt(), true) {
            Some(v) => Some(v),
            None => old.fdt,
        },
        initrd: match last_tag_value(ls, tag_initrd(), true) {
            Some(v) => Some(v),
            None => old.initrd,
        },
        append: match last_tag_value(ls, tag_append(), true) {
            Some(v) => Some(v),
            None => old.append,
        },
    }
}

/// One boot entry: the optional values of its six recognized tags.
pub struct ExtlinuxEntry {
    pub label: Option<String>,
    pub menu_label: Option<String>,
    pub linux: Option<String>,
    pub fdt: Option<String>,
    pub initrd: Option<String>,
    pub append: Option<String>,
}

pub open spec fn opt_view(o: Option<String>) -> Option<Seq<char>> {
    match o {
        Some(s) => Some(s@),
        None => None,
    }
}

impl View for ExtlinuxEntry {
    type V = EntryModel;

    open spec fn view(&self) -> EntryModel {
        EntryModel {
            label: opt_view(self.label),
            menu_label: opt_view(self.menu_label),
            linux: opt_view(self.linux),
            fdt: opt_view(self.fdt),
            initrd: opt_view(self.initrd),
            append: opt_view(self.append),
        }
    }
}

/// Scans one line for one tag; overwrites `field` with the trimmed text
/// after the tag when the line carries it.
fn scan_tag(field: &mut Option<String>, l: &str, tag: &str, trim_line: bool)
    ensures
        opt_view(*final(field)) == (if starts_with((if trim_line {
            trim(l@)
        } else {
            l@
        }), tag@) {
            Some(
                trim(
                    (if trim_line {
                        trim(l@)
                    } else {
                        l@
                    }).subrange(tag@.len() as int, (if trim_line {
                        trim(l@)
                    } else {
                        l@
                    }).len() as int),
                ),
            )
        } else {
            opt_view(*old(field))
        }),
{
    let t = if trim_line {
        trim_str(l)
    } else {
        l
    };
    if starts_with_str(t, tag) {
        let tl = tag.unicode_len();
        let v = String::from_str(trim_str(t.substring_char(tl, t.unicode_len())));
        *field = Some(v);
    }
}

impl ExtlinuxEntry {
    /// Fills this entry from a run of configuration lines: each field
    /// takes the value of the last line carrying its tag, and keeps its
    /// old value when no line does.  `LABEL` is recognized at the start
    /// of the raw line; the other tags at the start of the trimmed line.
    pub fn init(&mut self, content: &Vec<String>)
        ensures
            final(self)@ == entry_update(old(self)@, line_views(content@)),
    {
        let ghost ls = line_views(content@);
        let n = content.len();
        let mut i: usize = 0;
        proof {
            assert(ls.take(0) =~= Seq::<Seq<char>>::empty());
        }
        while i < n
            invariant
                0 <= i <= n,
                ls == line_views(content@),
                n == content@.len(),
                self@ == entry_update(old(self)@, ls.take(i as int)),
            decreases n - i,
        {
            let l = content[i].as_str();
            proof {
                assert(ls[i as int] == content@[i as int]@);
                assert(ls.take(i + 1).drop_last() =~= ls.take(i as int));
                assert(ls.take(i + 1).last() == ls[i as int]);
            }
            proof {
                reveal_strlit("LABEL");
                reveal_strlit("MENU LABEL");
                reveal_strlit("LINUX");
                reveal_strlit("FDT");
                reveal_strlit("INITRD");
                reveal_strlit("APPEND");
                assert("LABEL"@ =~= tag_label());
                assert("MENU LABEL"@ =~= tag_menu_label());
                assert("LINUX"@ =~= tag_linux());
                assert("FDT"@ =~= tag_fdt());
                assert("INITRD"@ =~= tag_initrd());
                assert("APPEND"@ =~= tag_append());
            }
            scan_tag(&mut self.label, l, "LABEL", false);
            scan_tag(&mut self.menu_label, l, "MENU LABEL", true);
            scan_tag(&mut self.linux, l, "LINUX", true);
            scan_tag(&mut self.fdt, l, "FDT", true);
            scan_tag(&mut self.initrd, l, "INITRD", true);
            scan_tag(&mut self.append, l, "APPEND", true);
            i = i + 1;
        }
        proof {
            assert(ls.take(n as int) =~= ls);
        }
    }
}

// ---------------------------------------------------------------------
// Decimal timeout values.
// ---------------------------------------------------------------------

pub open spec fn is_digit(c: char) -> bool {
    '0' <= c <= '9'
}

/// A nonempty string of decimal digits.
pub open spec fn is_digits(s: Seq<char>) -> bool {
    s.len() >= 1 && forall|k: int| 0 <= k < s.len() ==> is_digit(#[trigger] s[k])
}

/// The number the digits denote.
pub open spec fn digits_val(s: Seq<char>) -> int
    decreases s.len(),
{
    if s.len() == 0 {
        0
    } else {
        digits_val(s.drop_last()) * 10 + (s.last() as int - '0' as int)
    }
}

proof fn lemma_digits_val_nonneg(s: Seq<char>)
    requires
        forall|k: int| 0 <= k < s.len() ==> is_digit(#[trigger] s[k]),
    ensures
        digits_val(s) >= 0,
    decreases s.len(),
{
    if s.len() > 0 {
        lemma_digits_val_nonneg(s.drop_last());
    }
}

/// More digits never shrink the value.
proof fn lemma_digits_val_monotone(s: Seq<char>, i: int)
    requires
        0 <= i <= s.len(),
        forall|k: int| 0 <= k < s.len() ==> is_digit(#[trigger] s[k]),
    ensures
        digits_val(s) >= digits_val(s.take(i)),
    decreases s.len() - i,
{
    if i < s.len() {
        lemma_digits_val_monotone(s, i + 1);
        lemma_digits_val_nonneg(s.take(i));
        assert(s.take(i + 1).drop_last() =~= s.take(i));
        assert(s.take(i + 1).last() == s[i]);
    } else {
        assert(s.take(i) =~= s);
    }
}

/// Reads a nonempty decimal number, rejecting other text and values
/// that do not fit the machine word.
pub fn parse_usize(s: &str) -> (r: Option<usize>)
    ensures
        match r {
            Some(v) => is_digits(s@) && v as int == digits_val(s@),
            None => !is_digits(s@) || digits_val(s@) > usize::MAX,
        },
{
    let n = s.unicode_len();
    if n == 0 {
        return None;
    }
    let mut acc: usize = 0;
    let mut i: usize = 0;
    while i < n
        invariant
            0 <= i <= n,
            n == s@.len(),
            n >= 1,
            forall|k: int| 0 <= k < i ==> is_digit(#[trigger] s@[k]),
            acc as int == digits_val(s@.take(i as int)),
        decreases n - i,
    {
        let c = s.get_char(i);
        if !('0' <= c && c <= '9') {
            return None;
        }
        let d = (c as u32 - '0' as u32) as usize;
        assert(0 <= d <= 9);
        if acc > (usize::MAX - d) / 10 {
            proof {
                assert(acc * 10 + d > usize::MAX) by (nonlinear_arith)
                    requires
                        acc > (usize::MAX - d) / 10,
                        0 <= d <= 9,
                {}
                assert(s@.take(i + 1).drop_last() =~= s@.take(i as int));
                assert(s@.take(i + 1).last() == s@[i as int]);
                assert(digits_val(s@.take(i + 1)) > usize::MAX);
                if forall|k: int| 0 <= k < s@.len() ==> is_digit(#[trigger] s@[k]) {
                    lemma_digits_val_monotone(s@, i + 1);
                    assert(s@.take(n as int) =~= s@);
                }
            }
            return None;
        }
        proof {
            assert(acc * 10 + d <= usize::MAX) by (nonlinear_arith)
                requires
                    acc <= (usize::MAX - d) / 10,
                    0 <= d <= 9,
            {}
            assert(s@.take(i + 1).drop_last() =~= s@.take(i as int));
            assert(s@.take(i + 1).last() == s@[i as int]);
        }
        acc = acc * 10 + d;
        i = i + 1;
    }
    proof {
        assert(s@.take(n as int) =~= s@);
    }
    Some(acc)
}

// ---------------------------------------------------------------------
// The whole configuration.
// ---------------------------------------------------------------------

/// Indices at or after `i` of lines that begin a boot entry.
pub open spec fn label_idx(ls: Seq<Seq<char>>, i: int) -> Seq<int>
    decreases ls.len() - i when 0 <= i <= ls.len()
{
    if i >= ls.len() {
        Seq::empty()
    } else if starts_with(ls[i], tag_label()) {
        seq![i] + label_idx(ls, i + 1)
    } else {
        label_idx(ls, i + 1)
    }
}

pub open spec fn empty_entry() -> EntryModel {
    EntryModel {
        label: None,
        menu_label: None,
        linux: None,
        fdt: None,
        initrd: None,
        append: None,
    }
}

/// The entries of a configuration: one per `LABEL` line, built from the
/// lines up to the next `LABEL` line or the end.  A `LABEL` on the very
/// first line begins no entry.
pub open spec fn entries_of(ls: Seq<Seq<char>>) -> Seq<EntryModel> {
    let idxs = label_idx(ls, 0);
    let start_j: int = if idxs.len() > 0 && idxs[0] == 0 {
        1
    } else {
        0
    };
    Seq::new(
        (idxs.len() - start_j) as nat,
        |j: int|
            {
                let a = idxs[start_j + j];
                let b = if start_j + j + 1 < idxs.len() {
                    idxs[start_j + j + 1]
                } else {
                    ls.len() as int
                };
                entry_update(empty_entry(), ls.subrange(a, b))
            },
    )
}

pub open spec fn entries_view(es: Seq<ExtlinuxEntry>) -> Seq<EntryModel> {
    Seq::new(es.len(), |j: int| es[j]@)
}

/// The first entry whose label equals `d`, by index.
pub open spec fn first_label_match(es: Seq<EntryModel>, d: Option<Seq<char>>, i: int) -> Option<
    int,
>
    decreases es.len() - i when 0 <= i <= es.len()
{
    if i >= es.len() {
        None
    } else if es[i].label == d {
        Some(i)
    } else {
        first_label_match(es, d, i + 1)
    }
}

proof fn lemma_label_idx_sorted(ls: Seq<Seq<char>>, i: int)
    requires
        0 <= i <= ls.len(),
    ensures
        forall|j: int|
            0 <= j < label_idx(ls, i).len() ==> i <= #[trigger] label_idx(ls, i)[j] < ls.len(),
        forall|j1: int, j2: int|
            0 <= j1 < j2 < label_idx(ls, i).len() ==> #[trigger] label_idx(ls, i)[j1]
                < #[trigger] label_idx(ls, i)[j2],
    decreases ls.len() - i,
{
    if i < ls.len() {
        lemma_label_idx_sorted(ls, i + 1);
        if starts_with(ls[i], tag_label()) {
            assert forall|j: int| 0 <= j < label_idx(ls, i).len() implies i <= #[trigger] label_idx(
                ls,
                i,
            )[j] < ls.len() by {
                if j > 0 {
                    assert(label_idx(ls, i)[j] == label_idx(ls, i + 1)[j - 1]);
                }
            }
            assert forall|j1: int, j2: int|
                0 <= j1 < j2 < label_idx(ls, i).len() implies #[trigger] label_idx(ls, i)[j1]
                < #[trigger] label_idx(ls, i)[j2] by {
                assert(label_idx(ls, i)[j2] == label_idx(ls, i + 1)[j2 - 1]);
                if j1 > 0 {
                    assert(label_idx(ls, i)[j1] == label_idx(ls, i + 1)[j1 - 1]);
                }
            }
        }
    }
}

/// Copies the lines `[a, b)` into an owned vector.
fn sub_vec(lines: &Vec<String>, a: usize, b: usize) -> (r: Vec<String>)
    requires
        a <= b <= lines@.len(),
    ensures
        line_views(r@) == line_views(lines@).subrange(a as int, b as int),
{
    let mut r: Vec<String> = Vec::new();
    let mut k = a;
    while k < b
        invariant
            a <= k <= b <= lines@.len(),
            r@.len() == k - a,
            forall|q: int| 0 <= q < r@.len() ==> #[trigger] r@[q]@ == lines@[a + q]@,
        decreases b - k,
    {
        r.push(lines[k].clone());
        k = k + 1;
    }
    proof {
        assert(line_views(r@) =~= line_views(lines@).subrange(a as int, b as int));
    }
    r
}

/// One parsed configuration: global settings and the boot entries.
pub struct Extlinux {
    pub timeout: Option<usize>,
    pub default: Option<String>,
    pub menu_title: Option<String>,
    pub entries: Vec<ExtlinuxEntry>,
}

impl Extlinux {
    /// Parses configuration text.  `TIMEOUT`, `DEFAULT` and `MENU TITLE`
    /// take the value of the last line carrying them; each `LABEL` line
    /// (except one on the very first line) begins an entry that extends
    /// to the next `LABEL` line or the end.  Fails only when the
    /// `TIMEOUT` value is not a decimal number that fits the machine
    /// word.
    pub fn load(content: &str) -> (r: Result<Extlinux, ExtlinuxError>)
        ensures
            ({
                let ls = crate::text::split_lines(content@);
                match r {
                    Ok(x) => (match last_tag_value(ls, tag_timeout(), false) {
                        None => x.timeout is None,
                        Some(v) => is_digits(v) && digits_val(v) <= usize::MAX && (
                        x.timeout matches Some(tv) && tv as int == digits_val(v)),
                    }) && opt_view(x.default) == last_tag_value(ls, tag_default(), false)
                        && opt_view(x.menu_title) == last_tag_value(ls, tag_menu_title(), false)
                        && entries_view(x.entries@) == entries_of(ls),
                    Err(e) => e == ExtlinuxError::InvalidTimeout && (last_tag_value(
                        ls,
                        tag_timeout(),
                        false,
                    ) matches Some(v) && !(is_digits(v) && digits_val(v) <= usize::MAX)),
                }
            }),
    {
        let ghost ls = crate::text::split_lines(content@);
        let lines = split_to_lines(content);
        proof {
            reveal_strlit("TIMEOUT");
            reveal_strlit("DEFAULT");
            reveal_strlit("MENU TITLE");
            reveal_strlit("LABEL");
            assert("TIMEOUT"@ =~= tag_timeout());
            assert("DEFAULT"@ =~= tag_default());
            assert("MENU TITLE"@ =~= tag_menu_title());
            assert("LABEL"@ =~= tag_label());
        }

        // global settings: the last line carrying each tag
        let mut timeout_text: Option<String> = None;
        let mut default: Option<String> = None;
        let mut menu_title: Option<String> = None;
        let n = lines.len();
        let mut i: usize = 0;
        proof {
            assert(ls.take(0) =~= Seq::<Seq<char>>::empty());
        }
        while i < n
            invariant
                0 <= i <= n,
                ls == line_views(lines@),
                n == lines@.len(),
                opt_view(timeout_text) == last_tag_value(ls.take(i as int), tag_timeout(), false),
                opt_view(default) == last_tag_value(ls.take(i as int), tag_default(), false),
                opt_view(menu_title) == last_tag_value(ls.take(i as int), tag_menu_title(), false),
            decreases n - i,
        {
            let l = lines[i].as_str();
            proof {
                reveal_strlit("TIMEOUT");
                reveal_strlit("DEFAULT");
                reveal_strlit("MENU TITLE");
                assert("TIMEOUT"@ =~= tag_timeout());
                assert("DEFAULT"@ =~= tag_default());
                assert("MENU TITLE"@ =~= tag_menu_title());
                assert(ls[i as int] == lines@[i as int]@);
                assert(ls.take(i + 1).drop_last() =~= ls.take(i as int));
                assert(ls.take(i + 1).last() == ls[i as int]);
            }
            scan_tag(&mut timeout_text, l, "TIMEOUT", false);
            scan_tag(&mut default, l, "DEFAULT", false);
            scan_tag(&mut menu_title, l, "MENU TITLE", false);
            i = i + 1;
        }
        proof {
            assert(ls.take(n as int) =~= ls);
        }

        let timeout: Option<usize> = match &timeout_text {
            Some(ts) => match parse_usize(ts.as_str()) {
                Some(v) => Some(v),
                None => {
                    return Err(ExtlinuxError::InvalidTimeout);
                },
            },
            None => None,
        };

        // entry runs, one per label line
        let mut idxs: Vec<usize> = Vec::new();
        let mut k: usize = 0;
        while k < n
            invariant
                0 <= k <= n,
                ls == line_views(lines@),
                n == lines@.len(),
                label_idx(ls, 0) == Seq::new(idxs@.len(), |q: int| idxs@[q] as int) + label_idx(
                    ls,
                    k as int,
                ),
            decreases n - k,
        {
            proof {
                assert(ls[k as int] == lines@[k as int]@);
                reveal_strlit("LABEL");
                assert("LABEL"@ =~= tag_label());
            }
            if starts_with_str(lines[k].as_str(), "LABEL") {
                let ghost old_idxs = idxs@;
                idxs.push(k);
                proof {
                    assert(Seq::new(idxs@.len(), |q: int| idxs@[q] as int) =~= Seq::new(
                        old_idxs.len(),
                        |q: int| old_idxs[q] as int,
                    ) + seq![k as int]);
                    assert(label_idx(ls, k as int) == seq![k as int] + label_idx(ls, k + 1));
                }
            } else {
                proof {
                    assert(label_idx(ls, k as int) == label_idx(ls, k + 1));
                }
            }
            k = k + 1;
        }
        proof {
            assert(label_idx(ls, n as int) =~= Seq::<int>::empty());
            assert(Seq::new(idxs@.len(), |q: int| idxs@[q] as int) =~= label_idx(ls, 0));
            lemma_label_idx_sorted(ls, 0);
        }

        proof {
            assert forall|q: int| 0 <= q < idxs@.len() implies 0 <= #[trigger] idxs@[q] < n by {
                assert(idxs@[q] as int == Seq::new(idxs@.len(), |w: int| idxs@[w] as int)[q]);
                assert(0 <= label_idx(ls, 0)[q] < ls.len());
            }
            assert forall|q1: int, q2: int|
                0 <= q1 < q2 < idxs@.len() implies idxs@[q1] < idxs@[q2] by {
                assert(idxs@[q1] as int == Seq::new(idxs@.len(), |w: int| idxs@[w] as int)[q1]);
                assert(idxs@[q2] as int == Seq::new(idxs@.len(), |w: int| idxs@[w] as int)[q2]);
                assert(label_idx(ls, 0)[q1] < label_idx(ls, 0)[q2]);
            }
        }
        let nl = idxs.len();
        let start_j: usize = if nl > 0 && idxs[0] == 0 {
            1
        } else {
            0
        };
        let mut entries: Vec<ExtlinuxEntry> = Vec::new();
        let mut j: usize = start_j;
        proof {
            assert(entries_view(entries@) =~= entries_of(ls).take(0));
        }
        while j < nl
            invariant
                start_j <= j <= nl,
                start_j == (if label_idx(ls, 0).len() > 0 && label_idx(ls, 0)[0] == 0 {
                    1int
                } else {
                    0int
                }),
                ls == line_views(lines@),
                n == lines@.len(),
                nl == idxs@.len(),
                Seq::new(idxs@.len(), |q: int| idxs@[q] as int) == label_idx(ls, 0),
                forall|q: int| 0 <= q < nl ==> 0 <= #[trigger] idxs@[q] < n,
                forall|q1: int, q2: int| 0 <= q1 < q2 < nl ==> idxs@[q1] < idxs@[q2],
                entries_view(entries@) == entries_of(ls).take(j - start_j),
            decreases nl - j,
        {
            let a = idxs[j];
            let b = if j + 1 < nl {
                idxs[j + 1]
            } else {
                n
            };
            proof {
                assert(idxs@[j as int] as int == label_idx(ls, 0)[j as int]);
                if j + 1 < nl {
                    assert(idxs@[j as int] < idxs@[j + 1]);
                }
            }
            let run = sub_vec(&lines, a, b);
            let mut entry = ExtlinuxEntry {
                label: None,
                menu_label: None,
                linux: None,
                fdt: None,
                initrd: None,
                append: None,
            };
            entry.init(&run);
            let ghost old_entries = entries@;
            entries.push(entry);
            proof {
                assert(entry@ == entries_of(ls)[j - start_j]);
                assert(entries_view(entries@) =~= entries_view(old_entries) + seq![entry@]);
                assert(entries_view(entries@) =~= entries_of(ls).take(j + 1 - start_j));
            }
            j = j + 1;
        }
        proof {
            assert(entries_of(ls).take(nl - start_j) =~= entries_of(ls));
        }

        Ok(Extlinux { timeout, default, menu_title, entries })
    }

    /// The first entry whose label equals the configuration's `DEFAULT`
    /// value, or nothing when no entry matches.
    pub fn default_entry(&self) -> (r: Option<&ExtlinuxEntry>)
        ensures
            match first_label_match(entries_view(self.entries@), opt_view(self.default), 0) {
                Some(i) => r matches Some(en) && en@ == entries_view(self.entries@)[i],
                None => r is None,
            },
    {
        let ghost es = entries_view(self.entries@);
        let n = self.entries.len();
        let mut i: usize = 0;
        while i < n
            invariant
                0 <= i <= n,
                es == entries_view(self.entries@),
                n == self.entries@.len(),
                first_label_match(es, opt_view(self.default), 0) == first_label_match(
                    es,
                    opt_view(self.default),
                    i as int,
                ),
            decreases n - i,
        {
            let matches_default = match (&self.entries[i].label, &self.default) {
                (Some(a), Some(b)) => str_eq(a.as_str(), b.as_str()),
                (None, None) => true,
                _ => false,
            };
            proof {
                assert(es[i as int] == self.entries@[i as int]@);
            }
            if matches_default {
                proof {
                    assert(es[i as int].label == opt_view(self.default));
                }
                return Some(&self.entries[i]);
            }
            proof {
                assert(es[i as int].label != opt_view(self.default));
                assert(first_label_match(es, opt_view(self.default), i as int)
                    == first_label_match(es, opt_view(self.default), i + 1));
            }
            i = i + 1;
        }
        None
    }
}

} // verus!
