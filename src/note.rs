//! Notes and the parser that builds one from a document.
use vstd::prelude::*;
use crate::scan::{
    after_date, after_title, date_of, find_links, find_tasks, find_uuid, first_date_from, has_title,
    id_of, lemma_link_at, lemma_task_at, link_at, links_from, take_date, take_title, task_at,
    tasks_from, title_of,
};
use crate::text::{chars_of, string_of};

verus! {

/// A heading marked with a status keyword.
pub struct Task {
    pub title: String,
    pub status: String,
}

impl View for Task {
    /// Title, then status.
    type V = (Seq<char>, Seq<char>);

    open spec fn view(&self) -> (Seq<char>, Seq<char>) {
        (self.title@, self.status@)
    }
}

/// A reference to another note.
pub struct Link {
    pub title: String,
    pub target: String,
}

impl View for Link {
    /// Target, then display title.
    type V = (Seq<char>, Seq<char>);

    open spec fn view(&self) -> (Seq<char>, Seq<char>) {
        (self.target@, self.title@)
    }
}

/// The metadata of one document and its body.
pub struct Note {
    pub path: String,
    pub id: String,
    pub title: String,
    pub date: String,
    pub tasks: Vec<Task>,
    pub links: Vec<Link>,
    pub contents: String,
}

/// What a note holds, as sequences of characters.
pub struct NoteModel {
    pub path: Seq<char>,
    pub id: Seq<char>,
    pub title: Seq<char>,
    pub date: Seq<char>,
    pub tasks: Seq<(Seq<char>, Seq<char>)>,
    pub links: Seq<(Seq<char>, Seq<char>)>,
    pub contents: Seq<char>,
}

impl View for Note {
    type V = NoteModel;

    open spec fn view(&self) -> NoteModel {
        NoteModel {
            path: self.path@,
            id: self.id@,
            title: self.title@,
            date: self.date@,
            tasks: self.tasks@.map_values(|t: Task| t@),
            links: self.links@.map_values(|l: Link| l@),
            contents: self.contents@,
        }
    }
}

/// Why a document could not be parsed.
#[derive(Debug, Clone, Copy, PartialEq, Eq, Structural)]
pub enum ParseError {
    /// The path holds no identifier.
    MissingIdentifier,
    /// The document does not begin with a title declaration.
    MissingTitle,
    /// The document has no date declaration.
    MissingDate,
}

/// The title and status of a task heading found at bounds `m`.
pub open spec fn task_view(s: Seq<char>, m: (int, int, int, int)) -> (Seq<char>, Seq<char>) {
    (s.subrange(m.2, m.3), s.subrange(m.0, m.1))
}

/// The target and display title of a link found at bounds `m`.
pub open spec fn link_view(s: Seq<char>, m: (int, int, int, int, int)) -> (Seq<char>, Seq<char>) {
    (s.subrange(m.0, m.1), s.subrange(m.2, m.3))
}

/// The tasks of a body, in order.
pub open spec fn tasks_of(s: Seq<char>) -> Seq<(Seq<char>, Seq<char>)> {
    tasks_from(s, 0).map_values(|m: (int, int, int, int)| task_view(s, m))
}

/// The links of a body, in order.
pub open spec fn links_of(s: Seq<char>) -> Seq<(Seq<char>, Seq<char>)> {
    links_from(s, 0).map_values(|m: (int, int, int, int, int)| link_view(s, m))
}

/// The body of a document that has a title declaration and, after it, a
/// date declaration: the document without those two lines.
pub open spec fn body_of(doc: Seq<char>) -> Seq<char> {
    let b = after_title(doc);
    after_date(b, first_date_from(b, 0)->0)
}

/// The outcome of parsing the document `doc` stored at `path`.
pub open spec fn parse_model(path: Seq<char>, doc: Seq<char>) -> Result<NoteModel, ParseError> {
    if id_of(path) is None {
        Err(ParseError::MissingIdentifier)
    } else if !has_title(doc) {
        Err(ParseError::MissingTitle)
    } else if first_date_from(after_title(doc), 0) is None {
        Err(ParseError::MissingDate)
    } else {
        let b = after_title(doc);
        let body = body_of(doc);
        Ok(
            NoteModel {
                path,
                id: id_of(path)->0,
                title: title_of(doc),
                date: date_of(b, first_date_from(b, 0)->0),
                tasks: tasks_of(body),
                links: links_of(body),
                contents: body,
            },
        )
    }
}

/// Every task heading found from `i` lies inside the text, and each one
/// ends before the next begins.
pub proof fn lemma_tasks_from(s: Seq<char>, i: int)
    requires
        0 <= i,
    ensures
        forall|k: int|
            0 <= k < tasks_from(s, i).len() ==> {
                let m = #[trigger] tasks_from(s, i)[k];
                i < m.0 < m.1 < m.2 < m.3 <= s.len()
            },
        forall|j: int, k: int|
            0 <= j < k < tasks_from(s, i).len() ==> tasks_from(s, i)[j].3 < tasks_from(s, i)[k].0,
    decreases s.len() - i,
{
    if i < s.len() {
        match task_at(s, i) {
            Some(m) => {
                lemma_task_at(s, i);
                lemma_tasks_from(s, m.3);
                let t = tasks_from(s, i);
                let rest = tasks_from(s, m.3);
                assert(t == seq![m] + rest);
                assert forall|k: int| 0 <= k < t.len() implies ({
                    let mk = #[trigger] t[k];
                    i < mk.0 < mk.1 < mk.2 < mk.3 <= s.len()
                }) by {
                    if k > 0 {
                        assert(t[k] == rest[k - 1]);
                    }
                }
                assert forall|j: int, k: int| 0 <= j < k < t.len() implies t[j].3 < t[k].0 by {
                    assert(t[k] == rest[k - 1]);
                    if j > 0 {
                        assert(t[j] == rest[j - 1]);
                    }
                }
            },
            None => {
                lemma_tasks_from(s, i + 1);
                assert(tasks_from(s, i) == tasks_from(s, i + 1));
            },
        }
    }
}

/// Every link found from `i` lies inside the text, and each one ends
/// before the next begins.
pub proof fn lemma_links_from(s: Seq<char>, i: int)
    requires
        0 <= i,
    ensures
        forall|k: int|
            0 <= k < links_from(s, i).len() ==> {
                let m = #[trigger] links_from(s, i)[k];
                i < m.0 < m.1 <= m.2 <= m.3 < m.4 <= s.len()
            },
        forall|j: int, k: int|
            0 <= j < k < links_from(s, i).len() ==> links_from(s, i)[j].4 < links_from(s, i)[k].0,
    decreases s.len() - i,
{
    if i < s.len() {
        match link_at(s, i) {
            Some(m) => {
                lemma_link_at(s, i);
                lemma_links_from(s, m.4);
                let t = links_from(s, i);
                let rest = links_from(s, m.4);
                assert(t == seq![m] + rest);
                assert forall|k: int| 0 <= k < t.len() implies ({
                    let mk = #[trigger] t[k];
                    i < mk.0 < mk.1 <= mk.2 <= mk.3 < mk.4 <= s.len()
                }) by {
                    if k > 0 {
                        assert(t[k] == rest[k - 1]);
                    }
                }
                assert forall|j: int, k: int| 0 <= j < k < t.len() implies t[j].4 < t[k].0 by {
                    assert(t[k] == rest[k - 1]);
                    if j > 0 {
                        assert(t[j] == rest[j - 1]);
                    }
                }
            },
            None => {
                lemma_links_from(s, i + 1);
                assert(links_from(s, i) == links_from(s, i + 1));
            },
        }
    }
}

fn build_tasks(s: &Vec<char>) -> (r: Vec<Task>)
    ensures
        r@.map_values(|t: Task| t@) == tasks_of(s@),
{
    let spans = find_tasks(s);
    proof { lemma_tasks_from(s@, 0); }
    let mut r: Vec<Task> = Vec::new();
    let mut k: usize = 0;
    while k < spans.len()
        invariant
            k <= spans.len(),
            spans@.len() == tasks_from(s@, 0).len(),
            forall|j: int| 0 <= j < spans@.len() ==> {
                let m = #[trigger] tasks_from(s@, 0)[j];
                spans@[j] == (m.0 as usize, m.1 as usize, m.2 as usize, m.3 as usize)
                    && 0 < m.0 < m.1 < m.2 < m.3 <= s.len()
            },
            r@.len() == k,
            forall|j: int| 0 <= j < k ==> (#[trigger] r@[j])@ == task_view(s@, tasks_from(s@, 0)[j]),
        decreases spans.len() - k,
    {
        let m = spans[k];
        let ghost gm = tasks_from(s@, 0)[k as int];
        let t = Task { title: string_of(s, m.2, m.3), status: string_of(s, m.0, m.1) };
        r.push(t);
        k = k + 1;
    }
    assert(r@.map_values(|t: Task| t@) =~= tasks_of(s@));
    r
}

fn build_links(s: &Vec<char>) -> (r: Vec<Link>)
    ensures
        r@.map_values(|l: Link| l@) == links_of(s@),
{
    let spans = find_links(s);
    proof { lemma_links_from(s@, 0); }
    let mut r: Vec<Link> = Vec::new();
    let mut k: usize = 0;
    while k < spans.len()
        invariant
            k <= spans.len(),
            spans@.len() == links_from(s@, 0).len(),
            forall|j: int| 0 <= j < spans@.len() ==> {
                let m = #[trigger] links_from(s@, 0)[j];
                spans@[j] == (m.0 as usize, m.1 as usize, m.2 as usize, m.3 as usize, m.4 as usize)
                    && 0 < m.0 < m.1 <= m.2 <= m.3 < m.4 <= s.len()
            },
            r@.len() == k,
            forall|j: int| 0 <= j < k ==> (#[trigger] r@[j])@ == link_view(s@, links_from(s@, 0)[j]),
        decreases spans.len() - k,
    {
        let m = spans[k];
        let ghost gm = links_from(s@, 0)[k as int];
        let l = Link { title: string_of(s, m.2, m.3), target: string_of(s, m.0, m.1) };
        r.push(l);
        k = k + 1;
    }
    assert(r@.map_values(|l: Link| l@) =~= links_of(s@));
    r
}

/// Parses the document `doc` stored at `path`. The identifier comes from
/// the path; the title and date declarations are taken out of the body,
/// while task headings and links are found in it and left in place.
pub fn parse_org_file(path: &str, doc: &str) -> (r: Result<Note, ParseError>)
    ensures
        match r {
            Ok(n) => parse_model(path@, doc@) == Ok::<NoteModel, ParseError>(n@),
            Err(e) => parse_model(path@, doc@) == Err::<NoteModel, ParseError>(e),
        },
{
    let p = chars_of(path);
    let start = match find_uuid(&p) {
        Some(i) => i,
        None => return Err(ParseError::MissingIdentifier),
    };
    let id = string_of(&p, start, start + 36);
    let d = chars_of(doc);
    let (title, rest) = match take_title(&d) {
        Some(x) => x,
        None => return Err(ParseError::MissingTitle),
    };
    let (date, body) = match take_date(&rest) {
        Some(x) => x,
        None => return Err(ParseError::MissingDate),
    };
    let tasks = build_tasks(&body);
    let links = build_links(&body);
    let note = Note {
        path: string_of(&p, 0, p.len()),
        id,
        title: string_of(&title, 0, title.len()),
        date: string_of(&date, 0, date.len()),
        tasks,
        links,
        contents: string_of(&body, 0, body.len()),
    };
    proof {
        assert(p@.subrange(0, p@.len() as int) =~= p@);
        assert(title@.subrange(0, title@.len() as int) =~= title@);
        assert(date@.subrange(0, date@.len() as int) =~= date@);
        assert(body@.subrange(0, body@.len() as int) =~= body@);
    }
    Ok(note)
}

/// The position of the first note in `notes` whose identifier is `id`.
/// A collection keyed by identifier uses it to refuse a second note with an
/// identifier already taken.
pub fn index_of_id(notes: &Vec<Note>, id: &String) -> (r: Option<usize>)
    ensures
        r matches Some(i) ==> i < notes@.len() && notes@[i as int].id@ == id@ && forall|j: int|
            0 <= j < i ==> notes@[j].id@ != id@,
        r is None ==> forall|j: int| 0 <= j < notes@.len() ==> notes@[j].id@ != id@,
{
    let mut i: usize = 0;
    while i < notes.len()
        invariant
            i <= notes@.len(),
            forall|j: int| 0 <= j < i ==> notes@[j].id@ != id@,
        decreases notes@.len() - i,
    {
        if notes[i].id == *id {
            return Some(i);
        }
        i = i + 1;
    }
    None
}

} // verus!
