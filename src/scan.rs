//! The grammar of a note document, as spec functions over characters, and
//! the scanners that find each construct.
use vstd::prelude::*;
use crate::text::{is_hex_digit, is_space, is_upper, is_word, hex_digit, space, upper, word_char};

verus! {

/// `lit` occurs in `s` starting at index `i`.
pub open spec fn occurs_at(s: Seq<char>, i: int, lit: Seq<char>) -> bool {
    0 <= i && i + lit.len() <= s.len() && s.subrange(i, i + lit.len()) == lit
}

pub fn has_at(s: &Vec<char>, i: usize, lit: &Vec<char>) -> (r: bool)
    ensures
        r == occurs_at(s@, i as int, lit@),
{
    if lit.len() > s.len() || i > s.len() - lit.len() {
        return false;
    }
    let mut k: usize = 0;
    while k < lit.len()
        invariant
            k <= lit.len(),
            i + lit.len() <= s.len(),
            forall|j: int| 0 <= j < k ==> s@[i + j] == lit@[j],
        decreases lit.len() - k,
    {
        if s[i + k] != lit[k] {
            assert(s@.subrange(i as int, i + lit.len())[k as int] != lit@[k as int]);
            return false;
        }
        k = k + 1;
    }
    assert(s@.subrange(i as int, i + lit.len()) =~= lit@);
    true
}

/// Index `i` begins a line: it is the start of the text or follows a newline.
pub open spec fn line_start(s: Seq<char>, i: int) -> bool {
    i == 0 || (0 < i <= s.len() && s[i - 1] == '\n')
}

/// The index of the first newline at or after `i`, or the length of `s`.
pub open spec fn line_end(s: Seq<char>, i: int) -> int
    decreases s.len() - i,
{
    if i < 0 || i >= s.len() || s[i] == '\n' {
        if i < 0 { 0 } else { i }
    } else {
        line_end(s, i + 1)
    }
}

pub proof fn lemma_line_end(s: Seq<char>, i: int)
    requires
        0 <= i <= s.len(),
    ensures
        i <= line_end(s, i) <= s.len(),
        forall|j: int| i <= j < line_end(s, i) ==> s[j] != '\n',
        line_end(s, i) < s.len() ==> s[line_end(s, i)] == '\n',
    decreases s.len() - i,
{
    if i < s.len() && s[i] != '\n' {
        lemma_line_end(s, i + 1);
    }
}

pub fn find_line_end(s: &Vec<char>, i: usize) -> (r: usize)
    requires
        i <= s.len(),
    ensures
        r == line_end(s@, i as int),
{
    let mut j: usize = i;
    while j < s.len() && s[j] != '\n'
        invariant
            i <= j <= s.len(),
            line_end(s@, j as int) == line_end(s@, i as int),
        decreases s.len() - j,
    {
        j = j + 1;
    }
    j
}

/// Where a declaration line that ends at `e` is cut off: its newline goes
/// with it.
pub open spec fn cut_end(s: Seq<char>, e: int) -> int {
    if e < s.len() { e + 1 } else { e }
}

/// `s` without its characters from `lo` up to the end of the line at `e`,
/// that line's newline included.
pub open spec fn strip_line(s: Seq<char>, lo: int, e: int) -> Seq<char> {
    s.subrange(0, lo) + s.subrange(cut_end(s, e), s.len() as int)
}

// ---------------------------------------------------------------- identifier

/// Which characters an identifier has at offset `k`: hyphens after the
/// groups of 8, 4, 4 and 4 hexadecimal digits, digits elsewhere.
pub open spec fn uuid_char(k: int, c: char) -> bool {
    if k == 8 || k == 13 || k == 18 || k == 23 { c == '-' } else { is_hex_digit(c) }
}

/// A word boundary at index `i`: exactly one of the characters on either
/// side of it is a word character.
pub open spec fn word_boundary(s: Seq<char>, i: int) -> bool {
    (0 < i && is_word(s[i - 1])) != (i < s.len() && is_word(s[i]))
}

/// An identifier occupies `s[i .. i + 36]`, with word boundaries before and
/// after it and around its first and last groups.
pub open spec fn uuid_at(s: Seq<char>, i: int) -> bool {
    &&& 0 <= i && i + 36 <= s.len()
    &&& forall|k: int| 0 <= k < 36 ==> #[trigger] uuid_char(k, s[i + k])
    &&& word_boundary(s, i)
    &&& word_boundary(s, i + 8)
    &&& word_boundary(s, i + 24)
    &&& word_boundary(s, i + 36)
}

/// The first index at or after `i` at which an identifier occurs.
pub open spec fn first_uuid_from(s: Seq<char>, i: int) -> Option<int>
    decreases s.len() - i,
{
    if i < 0 || i + 36 > s.len() {
        None
    } else if uuid_at(s, i) {
        Some(i)
    } else {
        first_uuid_from(s, i + 1)
    }
}

/// The identifier found in a path: its leftmost identifier-shaped substring.
pub open spec fn id_of(path: Seq<char>) -> Option<Seq<char>> {
    match first_uuid_from(path, 0) {
        Some(p) => Some(path.subrange(p, p + 36)),
        None => None,
    }
}

fn boundary(s: &Vec<char>, i: usize) -> (r: bool)
    requires
        i <= s.len(),
    ensures
        r == word_boundary(s@, i as int),
{
    let before = i > 0 && word_char(s[i - 1]);
    let after = i < s.len() && word_char(s[i]);
    before != after
}

fn uuid_shape(s: &Vec<char>, i: usize) -> (r: bool)
    requires
        i + 36 <= s.len(),
    ensures
        r == (forall|k: int| 0 <= k < 36 ==> #[trigger] uuid_char(k, s@[i + k])),
{
    let mut k: usize = 0;
    while k < 36
        invariant
            k <= 36,
            i + 36 <= s.len(),
            forall|j: int| 0 <= j < k ==> #[trigger] uuid_char(j, s@[i + j]),
        decreases 36 - k,
    {
        let c = s[i + k];
        let ok = if k == 8 || k == 13 || k == 18 || k == 23 { c == '-' } else { hex_digit(c) };
        if !ok {
            assert(!uuid_char(k as int, s@[i + k]));
            return false;
        }
        k = k + 1;
    }
    true
}

/// The start of the leftmost identifier in `s`.
pub fn find_uuid(s: &Vec<char>) -> (r: Option<usize>)
    ensures
        r is None <==> first_uuid_from(s@, 0) is None,
        r matches Some(p) ==> first_uuid_from(s@, 0) == Some(p as int) && p + 36 <= s.len(),
{
    if s.len() < 36 {
        return None;
    }
    let mut i: usize = 0;
    while i <= s.len() - 36
        invariant
            s.len() >= 36,
            i <= s.len() - 35,
            first_uuid_from(s@, i as int) == first_uuid_from(s@, 0),
        decreases s.len() - i,
    {
        if uuid_shape(s, i) && boundary(s, i) && boundary(s, i + 8) && boundary(s, i + 24)
            && boundary(s, i + 36) {
            return Some(i);
        }
        i = i + 1;
    }
    None
}

// ---------------------------------------------------------------- title, date

/// The characters `#+TITLE: `.
pub open spec fn title_key() -> Seq<char> {
    seq!['#', '+', 'T', 'I', 'T', 'L', 'E', ':', ' ']
}

/// The characters `#+DATE: `.
pub open spec fn date_key() -> Seq<char> {
    seq!['#', '+', 'D', 'A', 'T', 'E', ':', ' ']
}

/// A declaration with key `key` starts at `p`: the key, then at least one
/// character before the end of the line.
pub open spec fn decl_at(s: Seq<char>, p: int, key: Seq<char>) -> bool {
    occurs_at(s, p, key) && p + key.len() < s.len() && s[p + key.len()] != '\n'
}

/// A title declaration is recognised only at the very start of the text.
pub open spec fn has_title(s: Seq<char>) -> bool {
    decl_at(s, 0, title_key())
}

/// The title: the rest of the first line after `#+TITLE: `.
pub open spec fn title_of(s: Seq<char>) -> Seq<char> {
    s.subrange(9, line_end(s, 9))
}

/// The text left once the title line is removed.
pub open spec fn after_title(s: Seq<char>) -> Seq<char> {
    strip_line(s, 0, line_end(s, 9))
}

/// A date declaration at `p`: it begins a line.
pub open spec fn date_at(s: Seq<char>, p: int) -> bool {
    line_start(s, p) && decl_at(s, p, date_key())
}

/// The first index at or after `i` that starts a date declaration.
pub open spec fn first_date_from(s: Seq<char>, i: int) -> Option<int>
    decreases s.len() - i,
{
    if i < 0 || i >= s.len() {
        None
    } else if date_at(s, i) {
        Some(i)
    } else {
        first_date_from(s, i + 1)
    }
}

/// The date: the rest of the first date declaration's line after `#+DATE: `.
pub open spec fn date_of(s: Seq<char>, p: int) -> Seq<char> {
    s.subrange(p + 8, line_end(s, p + 8))
}

/// The text left once the date line at `p` is removed.
pub open spec fn after_date(s: Seq<char>, p: int) -> Seq<char> {
    strip_line(s, p, line_end(s, p + 8))
}

/// `s` without `s[lo .. e]` and the newline that follows it, if any.
pub fn strip(s: &Vec<char>, lo: usize, e: usize) -> (r: Vec<char>)
    requires
        lo <= e <= s.len(),
    ensures
        r@ == strip_line(s@, lo as int, e as int),
{
    let hi: usize = if e < s.len() { e + 1 } else { e };
    let mut r: Vec<char> = Vec::new();
    let mut i: usize = 0;
    while i < lo
        invariant
            i <= lo <= e <= s.len(),
            r@ == s@.subrange(0, i as int),
        decreases lo - i,
    {
        r.push(s[i]);
        assert(s@.subrange(0, i + 1) == s@.subrange(0, i as int).push(s@[i as int]));
        i = i + 1;
    }
    let mut j: usize = hi;
    while j < s.len()
        invariant
            hi <= j <= s.len(),
            hi == cut_end(s@, e as int),
            r@ == s@.subrange(0, lo as int) + s@.subrange(hi as int, j as int),
        decreases s.len() - j,
    {
        r.push(s[j]);
        assert(s@.subrange(hi as int, j + 1) == s@.subrange(hi as int, j as int).push(s@[j as int]));
        j = j + 1;
    }
    r
}

/// Finds the title declaration at the start of `s`. On success returns the
/// title and the text without the title line.
pub fn take_title(s: &Vec<char>) -> (r: Option<(Vec<char>, Vec<char>)>)
    ensures
        r is Some <==> has_title(s@),
        r matches Some((t, rest)) ==> t@ == title_of(s@) && rest@ == after_title(s@),
{
    let key: Vec<char> = vec!['#', '+', 'T', 'I', 'T', 'L', 'E', ':', ' '];
    assert(key@ == title_key());
    if !(has_at(s, 0, &key) && 9 < s.len() && s[9] != '\n') {
        return None;
    }
    let e = find_line_end(s, 9);
    proof { lemma_line_end(s@, 9); }
    let t = slice(s, 9, e);
    Some((t, strip(s, 0, e)))
}

/// The characters `s[lo .. hi]`.
pub fn slice(s: &Vec<char>, lo: usize, hi: usize) -> (r: Vec<char>)
    requires
        lo <= hi <= s.len(),
    ensures
        r@ == s@.subrange(lo as int, hi as int),
{
    let mut r: Vec<char> = Vec::new();
    let mut i: usize = lo;
    while i < hi
        invariant
            lo <= i <= hi <= s.len(),
            r@ == s@.subrange(lo as int, i as int),
        decreases hi - i,
    {
        r.push(s[i]);
        assert(s@.subrange(lo as int, i + 1) == s@.subrange(lo as int, i as int).push(s@[i as int]));
        i = i + 1;
    }
    r
}

/// Finds the first date declaration in `s`. On success returns the date and
/// the text without the date line.
pub fn take_date(s: &Vec<char>) -> (r: Option<(Vec<char>, Vec<char>)>)
    ensures
        r is Some <==> first_date_from(s@, 0) is Some,
        r matches Some((d, rest)) ==> ({
            let p = first_date_from(s@, 0)->0;
            d@ == date_of(s@, p) && rest@ == after_date(s@, p)
        }),
{
    let key: Vec<char> = vec!['#', '+', 'D', 'A', 'T', 'E', ':', ' '];
    assert(key@ == date_key());
    let mut p: usize = 0;
    while p < s.len()
        invariant
            p <= s.len(),
            key@ == date_key(),
            first_date_from(s@, p as int) == first_date_from(s@, 0),
        decreases s.len() - p,
    {
        if (p == 0 || s[p - 1] == '\n') && has_at(s, p, &key) && p + 8 < s.len() && s[p + 8]
            != '\n' {
            assert(date_at(s@, p as int));
            let e = find_line_end(s, p + 8);
            proof { lemma_line_end(s@, p + 8); }
            let d = slice(s, p + 8, e);
            return Some((d, strip(s, p, e)));
        }
        p = p + 1;
    }
    None
}

// ---------------------------------------------------------------- tasks

/// The end of the run of `*` that starts at `i`.
pub open spec fn star_end(s: Seq<char>, i: int) -> int
    decreases s.len() - i,
{
    if 0 <= i < s.len() && s[i] == '*' { star_end(s, i + 1) } else { i }
}

/// The end of the run of whitespace that starts at `i`.
pub open spec fn space_end(s: Seq<char>, i: int) -> int
    decreases s.len() - i,
{
    if 0 <= i < s.len() && is_space(s[i]) { space_end(s, i + 1) } else { i }
}

/// The end of the run of uppercase letters that starts at `i`.
pub open spec fn upper_end(s: Seq<char>, i: int) -> int
    decreases s.len() - i,
{
    if 0 <= i < s.len() && is_upper(s[i]) { upper_end(s, i + 1) } else { i }
}

/// The last index in `lo .. hi` that does not hold a newline.
pub open spec fn last_non_newline(s: Seq<char>, lo: int, hi: int) -> Option<int>
    decreases hi - lo,
{
    if hi <= lo {
        None
    } else if s[hi - 1] != '\n' {
        Some(hi - 1)
    } else {
        last_non_newline(s, lo, hi - 1)
    }
}

/// A task heading that starts at `p`, as the bounds of its status and of
/// its title: a line that opens with one or more `*`, whitespace, an
/// uppercase keyword, whitespace, then text up to the end of a line. The
/// whitespace may run over newlines; where it runs to the end of the text,
/// the title is the last of it that is not a newline.
pub open spec fn task_at(s: Seq<char>, p: int) -> Option<(int, int, int, int)> {
    if !(line_start(s, p) && 0 <= p < s.len() && s[p] == '*') {
        None
    } else {
        let q = star_end(s, p);
        let r = space_end(s, q);
        let t = upper_end(s, r);
        let u = space_end(s, t);
        if r == q || t == r || u == t {
            None
        } else if u < s.len() {
            Some((r, t, u, line_end(s, u)))
        } else {
            match last_non_newline(s, t + 1, u) {
                Some(v) => Some((r, t, v, line_end(s, v))),
                None => None,
            }
        }
    }
}

/// The task headings found scanning left to right from `i`; the scan goes
/// on after the end of each one found.
pub open spec fn tasks_from(s: Seq<char>, i: int) -> Seq<(int, int, int, int)>
    decreases s.len() - i,
{
    if i < 0 || i >= s.len() {
        seq![]
    } else {
        match task_at(s, i) {
            Some(m) => seq![m] + tasks_from(s, if i < m.3 <= s.len() { m.3 } else { i + 1 }),
            None => tasks_from(s, i + 1),
        }
    }
}

pub proof fn lemma_runs(s: Seq<char>, i: int)
    requires
        0 <= i <= s.len(),
    ensures
        i <= star_end(s, i) <= s.len(),
        i <= space_end(s, i) <= s.len(),
        i <= upper_end(s, i) <= s.len(),
        forall|j: int| i <= j < space_end(s, i) ==> is_space(#[trigger] s[j]),
        space_end(s, i) < s.len() ==> !is_space(s[space_end(s, i)]),
    decreases s.len() - i,
{
    if i < s.len() {
        lemma_runs(s, i + 1);
    }
}

pub proof fn lemma_last_non_newline(s: Seq<char>, lo: int, hi: int)
    requires
        0 <= lo,
        hi <= s.len(),
    ensures
        last_non_newline(s, lo, hi) matches Some(v) ==> lo <= v < hi && s[v] != '\n',
    decreases hi - lo,
{
    if lo < hi && s[hi - 1] == '\n' {
        lemma_last_non_newline(s, lo, hi - 1);
    }
}

/// A task heading's bounds lie in order inside the text, with a title that
/// ends a line.
pub proof fn lemma_task_at(s: Seq<char>, p: int)
    requires
        task_at(s, p) is Some,
    ensures
        ({
            let m = task_at(s, p)->0;
            p < m.0 < m.1 < m.2 < m.3 <= s.len() && m.3 == line_end(s, m.2)
        }),
{
    let q = star_end(s, p);
    lemma_runs(s, p + 1);
    lemma_runs(s, q);
    let r = space_end(s, q);
    lemma_runs(s, r);
    let t = upper_end(s, r);
    lemma_runs(s, t);
    let u = space_end(s, t);
    if u < s.len() {
        lemma_line_end(s, u);
        assert(s[u] != '\n');
        lemma_line_end(s, u + 1);
    } else {
        lemma_last_non_newline(s, t + 1, u);
        let v = last_non_newline(s, t + 1, u)->0;
        lemma_line_end(s, v + 1);
    }
}

fn star_run(s: &Vec<char>, i: usize) -> (r: usize)
    requires
        i <= s.len(),
    ensures
        r == star_end(s@, i as int),
{
    let mut j: usize = i;
    while j < s.len() && s[j] == '*'
        invariant
            i <= j <= s.len(),
            star_end(s@, j as int) == star_end(s@, i as int),
        decreases s.len() - j,
    {
        j = j + 1;
    }
    j
}

fn space_run(s: &Vec<char>, i: usize) -> (r: usize)
    requires
        i <= s.len(),
    ensures
        r == space_end(s@, i as int),
{
    let mut j: usize = i;
    while j < s.len() && space(s[j])
        invariant
            i <= j <= s.len(),
            space_end(s@, j as int) == space_end(s@, i as int),
        decreases s.len() - j,
    {
        j = j + 1;
    }
    j
}

fn upper_run(s: &Vec<char>, i: usize) -> (r: usize)
    requires
        i <= s.len(),
    ensures
        r == upper_end(s@, i as int),
{
    let mut j: usize = i;
    while j < s.len() && upper(s[j])
        invariant
            i <= j <= s.len(),
            upper_end(s@, j as int) == upper_end(s@, i as int),
        decreases s.len() - j,
    {
        j = j + 1;
    }
    j
}

fn find_last_non_newline(s: &Vec<char>, lo: usize, hi: usize) -> (r: Option<usize>)
    requires
        lo <= hi <= s.len(),
    ensures
        r == (match last_non_newline(s@, lo as int, hi as int) {
            Some(v) => Some(v as usize),
            None => None::<usize>,
        }),
{
    let mut h: usize = hi;
    while h > lo
        invariant
            lo <= h <= hi <= s.len(),
            last_non_newline(s@, lo as int, h as int) == last_non_newline(s@, lo as int, hi as int),
        decreases h - lo,
    {
        if s[h - 1] != '\n' {
            return Some(h - 1);
        }
        h = h - 1;
    }
    None
}

/// The task heading at `p`, if one starts there.
pub fn find_task_at(s: &Vec<char>, p: usize) -> (r: Option<(usize, usize, usize, usize)>)
    requires
        p <= s.len(),
    ensures
        r == (match task_at(s@, p as int) {
            Some(m) => Some((m.0 as usize, m.1 as usize, m.2 as usize, m.3 as usize)),
            None => None::<(usize, usize, usize, usize)>,
        }),
{
    if !((p == 0 || s[p - 1] == '\n') && p < s.len() && s[p] == '*') {
        return None;
    }
    let q = star_run(s, p);
    proof { lemma_runs(s@, p as int); }
    let r = space_run(s, q);
    proof { lemma_runs(s@, q as int); }
    let t = upper_run(s, r);
    proof { lemma_runs(s@, r as int); }
    let u = space_run(s, t);
    proof { lemma_runs(s@, t as int); }
    if r == q || t == r || u == t {
        None
    } else if u < s.len() {
        proof { lemma_line_end(s@, u as int); }
        Some((r, t, u, find_line_end(s, u)))
    } else {
        match find_last_non_newline(s, t + 1, u) {
            Some(v) => {
                proof { lemma_last_non_newline(s@, t + 1, u as int); }
                Some((r, t, v, find_line_end(s, v)))
            },
            None => None,
        }
    }
}

/// The bounds of every task heading in `s`, in order.
pub fn find_tasks(s: &Vec<char>) -> (r: Vec<(usize, usize, usize, usize)>)
    ensures
        r@.len() == tasks_from(s@, 0).len(),
        forall|k: int| 0 <= k < r@.len() ==> {
            let m = #[trigger] tasks_from(s@, 0)[k];
            r@[k] == (m.0 as usize, m.1 as usize, m.2 as usize, m.3 as usize)
        },
{
    let mut r: Vec<(usize, usize, usize, usize)> = Vec::new();
    let ghost done: Seq<(int, int, int, int)> = seq![];
    let mut i: usize = 0;
    while i < s.len()
        invariant
            i <= s.len(),
            done + tasks_from(s@, i as int) == tasks_from(s@, 0),
            r@.len() == done.len(),
            forall|k: int| 0 <= k < r@.len() ==> {
                let m = #[trigger] done[k];
                r@[k] == (m.0 as usize, m.1 as usize, m.2 as usize, m.3 as usize)
            },
        decreases s.len() - i,
    {
        match find_task_at(s, i) {
            Some(m) => {
                proof {
                    lemma_task_at(s@, i as int);
                    let gm = task_at(s@, i as int)->0;
                    assert(seq![gm] + tasks_from(s@, m.3 as int) == tasks_from(s@, i as int));
                    assert(done.push(gm) + tasks_from(s@, m.3 as int) =~= done + (seq![gm]
                        + tasks_from(s@, m.3 as int)));
                    done = done.push(gm);
                }
                r.push(m);
                i = m.3;
            },
            None => {
                i = i + 1;
            },
        }
    }
    proof {
        assert(done + tasks_from(s@, i as int) =~= done);
    }
    r
}

// ---------------------------------------------------------------- links

/// The characters `[[notes:`.
pub open spec fn link_key() -> Seq<char> {
    seq!['[', '[', 'n', 'o', 't', 'e', 's', ':']
}

/// The first index at or after `i` that holds `]` or a newline, or the
/// length of `s`.
pub open spec fn segment_end(s: Seq<char>, i: int) -> int
    decreases s.len() - i,
{
    if 0 <= i < s.len() && s[i] != ']' && s[i] != '\n' { segment_end(s, i + 1) } else { i }
}

/// A link that starts at `p`, as the bounds of its target, of its display
/// title (empty where it has none) and its end: `[[notes:target]]` or
/// `[[notes:target][title]]`, where target and title are non-empty and hold
/// neither `]` nor a newline.
pub open spec fn link_at(s: Seq<char>, p: int) -> Option<(int, int, int, int, int)> {
    if !occurs_at(s, p, link_key()) {
        None
    } else {
        let a = p + 8;
        let x = segment_end(s, a);
        if x == a || s.len() - x <= 1 || s[x] != ']' {
            None
        } else if s[x + 1] == ']' {
            Some((a, x, x, x, x + 2))
        } else if s[x + 1] == '[' {
            let y = segment_end(s, x + 2);
            if y == x + 2 || s.len() - y <= 1 || s[y] != ']' || s[y + 1] != ']' {
                None
            } else {
                Some((a, x, x + 2, y, y + 2))
            }
        } else {
            None
        }
    }
}

/// The links found scanning left to right from `i`; the scan goes on after
/// the end of each one found.
pub open spec fn links_from(s: Seq<char>, i: int) -> Seq<(int, int, int, int, int)>
    decreases s.len() - i,
{
    if i < 0 || i >= s.len() {
        seq![]
    } else {
        match link_at(s, i) {
            Some(m) => seq![m] + links_from(s, if i < m.4 <= s.len() { m.4 } else { i + 1 }),
            None => links_from(s, i + 1),
        }
    }
}

pub proof fn lemma_segment_end(s: Seq<char>, i: int)
    requires
        0 <= i <= s.len(),
    ensures
        i <= segment_end(s, i) <= s.len(),
    decreases s.len() - i,
{
    if i < s.len() {
        lemma_segment_end(s, i + 1);
    }
}

/// A link's bounds lie in order inside the text.
pub proof fn lemma_link_at(s: Seq<char>, p: int)
    requires
        link_at(s, p) is Some,
    ensures
        ({
            let m = link_at(s, p)->0;
            p < m.0 < m.1 <= m.2 <= m.3 < m.4 <= s.len()
        }),
{
    lemma_segment_end(s, p + 8);
    let x = segment_end(s, p + 8);
    if s[x + 1] == '[' {
        lemma_segment_end(s, x + 2);
    }
}

fn segment_run(s: &Vec<char>, i: usize) -> (r: usize)
    requires
        i <= s.len(),
    ensures
        r == segment_end(s@, i as int),
{
    let mut j: usize = i;
    while j < s.len() && s[j] != ']' && s[j] != '\n'
        invariant
            i <= j <= s.len(),
            segment_end(s@, j as int) == segment_end(s@, i as int),
        decreases s.len() - j,
    {
        j = j + 1;
    }
    j
}

/// The link at `p`, if one starts there.
pub fn find_link_at(s: &Vec<char>, p: usize, key: &Vec<char>) -> (r: Option<(usize, usize, usize, usize, usize)>)
    requires
        p <= s.len(),
        key@ == link_key(),
    ensures
        r == (match link_at(s@, p as int) {
            Some(m) => Some((m.0 as usize, m.1 as usize, m.2 as usize, m.3 as usize, m.4 as usize)),
            None => None::<(usize, usize, usize, usize, usize)>,
        }),
{
    if !has_at(s, p, key) {
        return None;
    }
    let a = p + 8;
    let x = segment_run(s, a);
    proof { lemma_segment_end(s@, a as int); }
    if x == a || s.len() - x <= 1 || s[x] != ']' {
        None
    } else if s[x + 1] == ']' {
        Some((a, x, x, x, x + 2))
    } else if s[x + 1] == '[' {
        let y = segment_run(s, x + 2);
        proof { lemma_segment_end(s@, x + 2); }
        if y == x + 2 || s.len() - y <= 1 || s[y] != ']' || s[y + 1] != ']' {
            None
        } else {
            Some((a, x, x + 2, y, y + 2))
        }
    } else {
        None
    }
}

/// The bounds of every link in `s`, in order.
pub fn find_links(s: &Vec<char>) -> (r: Vec<(usize, usize, usize, usize, usize)>)
    ensures
        r@.len() == links_from(s@, 0).len(),
        forall|k: int| 0 <= k < r@.len() ==> {
            let m = #[trigger] links_from(s@, 0)[k];
            r@[k] == (m.0 as usize, m.1 as usize, m.2 as usize, m.3 as usize, m.4 as usize)
        },
{
    let key: Vec<char> = vec!['[', '[', 'n', 'o', 't', 'e', 's', ':'];
    assert(key@ == link_key());
    let mut r: Vec<(usize, usize, usize, usize, usize)> = Vec::new();
    let ghost done: Seq<(int, int, int, int, int)> = seq![];
    let mut i: usize = 0;
    while i < s.len()
        invariant
            i <= s.len(),
            key@ == link_key(),
            done + links_from(s@, i as int) == links_from(s@, 0),
            r@.len() == done.len(),
            forall|k: int| 0 <= k < r@.len() ==> {
                let m = #[trigger] done[k];
                r@[k] == (m.0 as usize, m.1 as usize, m.2 as usize, m.3 as usize, m.4 as usize)
            },
        decreases s.len() - i,
    {
        match find_link_at(s, i, &key) {
            Some(m) => {
                proof {
                    lemma_link_at(s@, i as int);
                    let gm = link_at(s@, i as int)->0;
                    assert(seq![gm] + links_from(s@, m.4 as int) == links_from(s@, i as int));
                    assert(done.push(gm) + links_from(s@, m.4 as int) =~= done + (seq![gm]
                        + links_from(s@, m.4 as int)));
                    done = done.push(gm);
                }
                r.push(m);
                i = m.4;
            },
            None => {
                i = i + 1;
            },
        }
    }
    proof {
        assert(done + links_from(s@, i as int) =~= done);
    }
    r
}

} // verus!
