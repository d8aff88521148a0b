//! Laws that relate what the parser returns to the document and its path.
use vstd::prelude::*;
use crate::note::{
    lemma_links_from, lemma_tasks_from, link_view, links_of, parse_model, task_view, tasks_of,
};
use crate::scan::{
    after_date, after_title, cut_end, date_at, date_key, date_of, first_date_from, first_uuid_from,
    has_title, lemma_line_end, line_end, link_at, link_key, links_from, segment_end, tasks_from,
    title_key, title_of, uuid_at,
};

verus! {

proof fn lemma_first_uuid_from(s: Seq<char>, i: int)
    requires
        0 <= i,
    ensures
        first_uuid_from(s, i) matches Some(p) ==> i <= p && uuid_at(s, p) && forall|q: int|
            i <= q < p ==> !uuid_at(s, q),
        first_uuid_from(s, i) is None ==> forall|q: int| i <= q ==> !uuid_at(s, q),
    decreases s.len() - i,
{
    if i + 36 <= s.len() && !uuid_at(s, i) {
        lemma_first_uuid_from(s, i + 1);
    }
}

/// The identifier of a parsed note is the leftmost identifier in its path,
/// whatever the document holds: two documents stored at one path give
/// notes with one identifier.
pub proof fn law_id_from_path(path: Seq<char>, doc1: Seq<char>, doc2: Seq<char>)
    requires
        parse_model(path, doc1) is Ok,
        parse_model(path, doc2) is Ok,
    ensures
        parse_model(path, doc1)->Ok_0.id == parse_model(path, doc2)->Ok_0.id,
        exists|p: int|
            {
                &&& uuid_at(path, p)
                &&& forall|q: int| 0 <= q < p ==> !uuid_at(path, q)
                &&& parse_model(path, doc1)->Ok_0.id == path.subrange(p, p + 36)
            },
{
    lemma_first_uuid_from(path, 0);
    let p = first_uuid_from(path, 0)->0;
    assert(uuid_at(path, p));
}

/// The newline that ends the line running up to `e`, if there is one.
pub open spec fn terminator(s: Seq<char>, e: int) -> Seq<char> {
    s.subrange(e, cut_end(s, e))
}

/// The title and date declarations are removed whole, newline included,
/// and nothing else is: the document is the title line followed by the
/// body with the date line put back in its place, at the start of a line.
pub proof fn law_declarations_removed(path: Seq<char>, doc: Seq<char>)
    requires
        parse_model(path, doc) is Ok,
    ensures
        ({
            let n = parse_model(path, doc)->Ok_0;
            let b = after_title(doc);
            let p = first_date_from(b, 0)->0;
            let e = line_end(b, p + 8);
            &&& doc == title_key() + n.title + terminator(doc, line_end(doc, 9)) + b
            &&& b == b.subrange(0, p) + date_key() + n.date + terminator(b, e) + b.subrange(
                cut_end(b, e),
                b.len() as int,
            )
            &&& n.contents == b.subrange(0, p) + b.subrange(cut_end(b, e), b.len() as int)
            &&& p == 0 || b[p - 1] == '\n'
            &&& n.title.len() > 0 && forall|i: int| 0 <= i < n.title.len() ==> n.title[i] != '\n'
            &&& n.date.len() > 0 && forall|i: int| 0 <= i < n.date.len() ==> n.date[i] != '\n'
        }),
{
    let n = parse_model(path, doc)->Ok_0;
    let b = after_title(doc);
    lemma_first_date_from(b, 0);
    let p = first_date_from(b, 0)->0;
    assert(n.title == title_of(doc) && n.date == date_of(b, p) && n.contents == after_date(b, p));
    lemma_line_end(doc, 9);
    lemma_line_split(doc, 0, title_key(), line_end(doc, 9));
    lemma_line_end(b, p + 8);
    lemma_line_split(b, p, date_key(), line_end(b, p + 8));
    assert(doc.subrange(0, 0) + title_key() + n.title + terminator(doc, line_end(doc, 9))
        + b =~= title_key() + n.title + terminator(doc, line_end(doc, 9)) + b);
}

/// A line cut into what precedes it, its key, its text, its newline and
/// what follows.
proof fn lemma_line_split(s: Seq<char>, lo: int, key: Seq<char>, e: int)
    requires
        0 <= lo,
        lo + key.len() <= e <= s.len(),
        s.subrange(lo, lo + key.len()) == key,
        forall|j: int| lo + key.len() <= j < e ==> s[j] != '\n',
    ensures
        s == s.subrange(0, lo) + key + s.subrange(lo + key.len(), e) + terminator(s, e)
            + s.subrange(cut_end(s, e), s.len() as int),
        forall|i: int|
            0 <= i < e - lo - key.len() ==> #[trigger] s.subrange(lo + key.len(), e)[i] != '\n',
{
    assert(s =~= s.subrange(0, lo) + key + s.subrange(lo + key.len(), e) + terminator(s, e)
        + s.subrange(cut_end(s, e), s.len() as int));
    assert forall|i: int| 0 <= i < e - lo - key.len() implies #[trigger] s.subrange(
        lo + key.len(),
        e,
    )[i] != '\n' by {
        assert(s.subrange(lo + key.len(), e)[i] == s[lo + key.len() + i]);
    }
}

proof fn lemma_first_date_from(s: Seq<char>, i: int)
    requires
        0 <= i,
    ensures
        first_date_from(s, i) matches Some(p) ==> i <= p < s.len() && crate::scan::date_at(s, p)
            && forall|q: int| i <= q < p ==> !crate::scan::date_at(s, q),
        first_date_from(s, i) is None ==> forall|q: int| i <= q ==> !crate::scan::date_at(s, q),
    decreases s.len() - i,
{
    if i < s.len() && !crate::scan::date_at(s, i) {
        lemma_first_date_from(s, i + 1);
    }
}

/// Tasks and links are listed in the order in which they stand in the
/// body: each one found ends before the next one begins.
pub proof fn law_source_order(s: Seq<char>)
    ensures
        tasks_of(s).len() == tasks_from(s, 0).len(),
        forall|k: int|
            0 <= k < tasks_of(s).len() ==> #[trigger] tasks_of(s)[k] == task_view(
                s,
                tasks_from(s, 0)[k],
            ),
        forall|j: int, k: int|
            0 <= j < k < tasks_from(s, 0).len() ==> tasks_from(s, 0)[j].3 < tasks_from(s, 0)[k].0,
        links_of(s).len() == links_from(s, 0).len(),
        forall|k: int|
            0 <= k < links_of(s).len() ==> #[trigger] links_of(s)[k] == link_view(
                s,
                links_from(s, 0)[k],
            ),
        forall|j: int, k: int|
            0 <= j < k < links_from(s, 0).len() ==> links_from(s, 0)[j].4 < links_from(s, 0)[k].0,
{
    lemma_tasks_from(s, 0);
    lemma_links_from(s, 0);
}

/// A segment free of `]` and newlines, then `]`.
proof fn lemma_segment(s: Seq<char>, a: int, seg: Seq<char>)
    requires
        0 <= a,
        a + seg.len() < s.len(),
        s.subrange(a, a + seg.len()) == seg,
        forall|i: int| 0 <= i < seg.len() ==> seg[i] != ']' && seg[i] != '\n',
        s[a + seg.len()] == ']',
    ensures
        segment_end(s, a) == a + seg.len(),
    decreases seg.len(),
{
    if seg.len() > 0 {
        assert(s[a] == seg[0]);
        assert(s.subrange(a + 1, a + seg.len()) =~= seg.drop_first());
        lemma_segment(s, a + 1, seg.drop_first());
    }
}

/// Text that may stand as a link's target or display title: non-empty,
/// without `]` or a newline.
pub open spec fn plain_segment(t: Seq<char>) -> bool {
    t.len() > 0 && forall|i: int| 0 <= i < t.len() ==> t[i] != ']' && t[i] != '\n'
}

/// A link without a display title yields an empty title; a link with one
/// yields that title as written, without its brackets.
pub proof fn law_link_titles(s: Seq<char>, p: int, target: Seq<char>, title: Seq<char>)
    requires
        0 <= p,
        plain_segment(target),
    ensures
        ({
            &&& p + target.len() + 10 <= s.len()
            &&& s.subrange(p, p + target.len() + 10) == link_key() + target + seq![']', ']']
        }) ==> ({
            &&& link_at(s, p) is Some
            &&& link_view(s, link_at(s, p)->0) == (target, Seq::<char>::empty())
        }),
        ({
            &&& plain_segment(title)
            &&& p + target.len() + title.len() + 12 <= s.len()
            &&& s.subrange(p, p + target.len() + title.len() + 12) == link_key() + target + seq![
                ']',
                '[',
            ] + title + seq![']', ']']
        }) ==> ({
            &&& link_at(s, p) is Some
            &&& link_view(s, link_at(s, p)->0) == (target, title)
        }),
{
    let a = p + 8;
    let x = a + target.len();
    if p + target.len() + 10 <= s.len() && s.subrange(p, p + target.len() + 10) == link_key()
        + target + seq![']', ']'] {
        let w = link_key() + target + seq![']', ']'];
        assert(s.subrange(p, p + 8) =~= link_key()) by {
            assert forall|i: int| 0 <= i < 8 implies s.subrange(p, p + 8)[i] == link_key()[i] by {
                assert(s[p + i] == w[i]);
            }
        }
        assert(s.subrange(a, x) =~= target) by {
            assert forall|i: int| 0 <= i < target.len() implies s.subrange(a, x)[i] == target[i] by {
                assert(s[a + i] == w[8 + i]);
            }
        }
        assert(s[x] == w[8 + target.len() as int]);
        assert(s[x + 1] == w[9 + target.len() as int]);
        lemma_segment(s, a, target);
        assert(link_view(s, link_at(s, p)->0).1 =~= Seq::<char>::empty());
    }
    if plain_segment(title) && p + target.len() + title.len() + 12 <= s.len() && s.subrange(
        p,
        p + target.len() + title.len() + 12,
    ) == link_key() + target + seq![']', '['] + title + seq![']', ']'] {
        let w = link_key() + target + seq![']', '['] + title + seq![']', ']'];
        let y = x + 2 + title.len();
        assert(s.subrange(p, p + 8) =~= link_key()) by {
            assert forall|i: int| 0 <= i < 8 implies s.subrange(p, p + 8)[i] == link_key()[i] by {
                assert(s[p + i] == w[i]);
            }
        }
        assert(s.subrange(a, x) =~= target) by {
            assert forall|i: int| 0 <= i < target.len() implies s.subrange(a, x)[i] == target[i] by {
                assert(s[a + i] == w[8 + i]);
            }
        }
        assert(s.subrange(x + 2, y) =~= title) by {
            assert forall|i: int| 0 <= i < title.len() implies s.subrange(x + 2, y)[i] == title[i] by {
                assert(s[x + 2 + i] == w[10 + target.len() + i]);
            }
        }
        assert(s[x] == w[8 + target.len() as int]);
        assert(s[x + 1] == w[9 + target.len() as int]);
        assert(s[y] == w[10 + target.len() + title.len() as int]);
        assert(s[y + 1] == w[11 + target.len() + title.len() as int]);
        lemma_segment(s, a, target);
        lemma_segment(s, x + 2, title);
    }
}

/// The characters of `b` once `b[p .. c]` is cut out.
proof fn lemma_strip_index(b: Seq<char>, p: int, c: int)
    requires
        0 <= p <= c <= b.len(),
    ensures
        ({
            let t = b.subrange(0, p) + b.subrange(c, b.len() as int);
            &&& t.len() == b.len() - (c - p)
            &&& forall|i: int| 0 <= i < p ==> #[trigger] t[i] == b[i]
            &&& forall|i: int| p <= i < t.len() ==> #[trigger] t[i] == b[i + (c - p)]
        }),
{
}

/// A declaration key holds no newline.
proof fn lemma_keys()
    ensures
        forall|i: int| 0 <= i < 9 ==> #[trigger] title_key()[i] != '\n',
        forall|i: int| 0 <= i < 8 ==> #[trigger] date_key()[i] != '\n',
        title_key().len() == 9,
        date_key().len() == 8,
{
}

/// Searching the body of a parsed note for its declarations again finds
/// none, when the document holds no date declaration past the one taken
/// out, and the text after the title line (after the date line too, when
/// that line comes next) does not itself open with a title declaration.
pub proof fn law_declarations_gone(path: Seq<char>, doc: Seq<char>)
    requires
        parse_model(path, doc) is Ok,
        ({
            let b = after_title(doc);
            let p = first_date_from(b, 0)->0;
            let c = cut_end(b, line_end(b, p + 8));
            &&& first_date_from(b, c) is None
            &&& !has_title(b.subrange(if p == 0 { c } else { 0 }, b.len() as int))
        }),
    ensures
        !has_title(parse_model(path, doc)->Ok_0.contents),
        first_date_from(parse_model(path, doc)->Ok_0.contents, 0) is None,
{
    let n = parse_model(path, doc)->Ok_0;
    let b = after_title(doc);
    let p = first_date_from(b, 0)->0;
    assert(n.contents == after_date(b, p));
    lemma_first_date_from(b, 0);
    lemma_line_end(b, p + 8);
    lemma_strip_clean(b, p, cut_end(b, line_end(b, p + 8)));
}

/// Removing the line of the first date declaration, at `p`, up to `c`
/// leaves no date declaration when none stands from `c` on, and no title
/// declaration when the text that then comes first opens with none.
proof fn lemma_strip_clean(b: Seq<char>, p: int, c: int)
    requires
        0 <= p < c <= b.len(),
        first_date_from(b, 0) == Some(p),
        date_at(b, p),
        c == b.len() || b[c - 1] == '\n',
        first_date_from(b, c) is None,
        !has_title(b.subrange(if p == 0 { c } else { 0 }, b.len() as int)),
    ensures
        !has_title(b.subrange(0, p) + b.subrange(c, b.len() as int)),
        first_date_from(b.subrange(0, p) + b.subrange(c, b.len() as int), 0) is None,
{
    let t = b.subrange(0, p) + b.subrange(c, b.len() as int);
    lemma_strip_index(b, p, c);
    lemma_keys();
    lemma_first_date_from(b, 0);
    lemma_first_date_from(b, c);
    assert forall|q: int| !date_at(t, q) by {
        if date_at(t, q) {
            assert(t.subrange(q, q + 8) == date_key());
            if q < p {
                if q + 8 < p {
                    assert(b.subrange(q, q + 8) =~= t.subrange(q, q + 8));
                    assert(date_at(b, q));
                } else {
                    assert(t[p - 1] == t.subrange(q, q + 8)[p - 1 - q] || p - 1 == q + 8);
                }
            } else {
                let d = c - p;
                assert(b.subrange(q + d, q + d + 8) =~= t.subrange(q, q + 8));
                assert(q == p ==> (p == 0 || t[p - 1] == b[p - 1]));
                assert(date_at(b, q + d));
            }
        }
    }
    if first_date_from(t, 0) is Some {
        lemma_first_date_from(t, 0);
    }
    if has_title(t) {
        assert(t.subrange(0, 9) == title_key());
        if p == 0 {
            assert(t =~= b.subrange(c, b.len() as int));
        } else if p > 9 {
            assert(b.subrange(0, 9) =~= t.subrange(0, 9));
            assert(b.subrange(0, b.len() as int) =~= b);
        } else {
            assert(t[p - 1] == t.subrange(0, 9)[p - 1]);
        }
    }
}

} // verus!
