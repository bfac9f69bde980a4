use vstd::prelude::*;

use crate::codec::{absolute_link, decode_expecting, is_address_of, ProgramKind, BASE_URL};
use crate::datetime::{parse_datetime, schedule_in, DateTime, ScheduleTime};
use crate::html::Element;
use crate::models::{
    Course, CourseEvent, CourseExam, CourseGroup, Exam, Module, ModuleCourse, ModuleExam, ModuleMenu,
};
use crate::text::{
    after_first, before_first, chars_of, copy_string, int_value, parse_int, split_first, str_eq,
    string_of, trim, trimmed,
};

verus! {

/// A part of a page that the extraction needs and did not find.
#[derive(Clone, Copy, Debug, PartialEq, Eq, Structural)]
pub enum Field {
    Heading,
    Title,
    Credits,
    Content,
    Timetable,
    EventColumns,
    EventTime,
    Room,
    Plenum,
    GroupTitle,
    MenuTitle,
    MenuKind,
    ModuleHeader,
    Label,
    DateRange,
    ExamColumns,
    Link,
}

/// `es` has an element whose inner markup is `t`.
pub open spec fn has_html(es: Seq<Element>, t: Seq<char>) -> bool {
    exists|i: int| 0 <= i < es.len() && (#[trigger] es[i]).inner_html@ == t
}

/// The position of the first element of `es` whose inner markup is `t`.
pub open spec fn first_html(es: Seq<Element>, t: Seq<char>) -> int {
    choose|i: int| 0 <= i < es.len() && (#[trigger] es[i]).inner_html@ == t && forall|j: int|
        0 <= j < i ==> (#[trigger] es[j]).inner_html@ != t
}

/// The first element of `es` whose inner markup is `t`.
pub fn find_html(es: &Vec<Element>, t: &str) -> (r: Option<usize>)
    ensures
        r matches Some(i) ==> i == first_html(es@, t@) && i < es@.len() && es@[i as int].inner_html@ == t@,
        r is None ==> !has_html(es@, t@),
{
    let mut i: usize = 0;
    while i < es.len()
        invariant
            i <= es@.len(),
            forall|j: int| 0 <= j < i ==> (#[trigger] es@[j]).inner_html@ != t@,
        decreases es@.len() - i,
    {
        if str_eq(es[i].inner_html.as_str(), t) {
            proof {
                let c = first_html(es@, t@);
                assert(0 <= i < es@.len() && es@[i as int].inner_html@ == t@ && forall|j: int|
                    0 <= j < i ==> (#[trigger] es@[j]).inner_html@ != t@);
                if c != i {
                    if c < i {
                        assert(es@[c].inner_html@ != t@);
                    } else {
                        assert(es@[i as int].inner_html@ != t@);
                    }
                }
            }
            return Some(i);
        }
        i = i + 1;
    }
    None
}

/// `e` links to the page `k` of some entity, and that entity is `id`.
pub open spec fn link_target(e: Element, k: ProgramKind) -> Option<Seq<u8>> {
    if e.href matches Some(h) && exists|id: Seq<u8>| is_address_of(BASE_URL@ + h@, k, id) {
        Some(choose|id: Seq<u8>| is_address_of(BASE_URL@ + e.href.unwrap()@, k, id))
    } else {
        None
    }
}

/// The entity that `e` links to, where `e` links to the page `k`.
pub fn link_target_of(e: &Element, k: ProgramKind) -> (r: Option<Vec<u8>>)
    ensures
        r matches Some(v) ==> link_target(*e, k) == Some(v@),
        r is None ==> link_target(*e, k) is None,
{
    match &e.href {
        Some(h) => {
            let url = absolute_link(h.as_str());
            match decode_expecting(url.as_str(), k) {
                Ok(id) => {
                    proof {
                        let c = choose|c: Seq<u8>| is_address_of(BASE_URL@ + h@, k, c);
                        assert(is_address_of(url@, k, c));
                    }
                    Some(id)
                },
                Err(_) => None,
            }
        },
        None => None,
    }
}

pub open spec fn is_event_link(e: Element) -> bool {
    e.name matches Some(n) && n@ == "eventLink"@
}

fn is_event_link_of(e: &Element) -> (r: bool)
    ensures
        r == is_event_link(*e),
{
    match &e.name {
        Some(n) => str_eq(n.as_str(), "eventLink"),
        None => false,
    }
}

/// What a row of a module's course table says of one course: its identifier, code and title.
pub open spec fn row_course(row: Seq<Element>) -> Option<(Seq<u8>, Seq<char>, Seq<char>)> {
    if (exists|i: int| 0 <= i < row.len() && is_event_link(#[trigger] row[i])) && row.len() >= 3
        && link_target(row[2], ProgramKind::CourseDetails) is Some {
        Some((link_target(row[2], ProgramKind::CourseDetails).unwrap(), row[0].inner_html@, row[1].inner_html@))
    } else {
        None
    }
}

/// The courses that the rows of a module's course table name, in order; rows without a
/// course link, or whose link does not lead to a course, are skipped.
pub open spec fn row_courses(rows: Seq<Seq<Element>>) -> Seq<(Seq<u8>, Seq<char>, Seq<char>)>
    decreases rows.len(),
{
    if rows.len() == 0 {
        Seq::empty()
    } else {
        let prev = row_courses(rows.drop_last());
        match row_course(rows.last()) {
            Some(c) => prev.push(c),
            None => prev,
        }
    }
}

/// `c` is a stub of the course that `d` describes, checked at `now`.
pub open spec fn course_stub(c: Course, d: (Seq<u8>, Seq<char>, Seq<char>), now: i64) -> bool {
    &&& c.tucan_id@ == d.0
    &&& c.course_id@ == d.1
    &&& c.title@ == d.2
    &&& c.tucan_last_checked == now
    &&& c.sws == 0
    &&& c.content@.len() == 0
    &&& !c.done
}

/// The courses of a module's course table, as stubs.
pub fn courses_from_rows(rows: &Vec<Vec<Element>>, now: i64) -> (r: Vec<Course>)
    ensures
        r@.len() == row_courses(rows@.map_values(|v: Vec<Element>| v@)).len(),
        forall|j: int|
            0 <= j < r@.len() ==> course_stub(
                #[trigger] r@[j],
                row_courses(rows@.map_values(|v: Vec<Element>| v@))[j],
                now,
            ),
{
    let ghost rv = rows@.map_values(|v: Vec<Element>| v@);
    let mut r: Vec<Course> = Vec::new();
    let mut i: usize = 0;
    while i < rows.len()
        invariant
            i <= rows@.len(),
            rv == rows@.map_values(|v: Vec<Element>| v@),
            r@.len() == row_courses(rv.subrange(0, i as int)).len(),
            forall|j: int|
                0 <= j < r@.len() ==> course_stub(#[trigger] r@[j], row_courses(rv.subrange(0, i as int))[j], now),
        decreases rows@.len() - i,
    {
        let row = &rows[i];
        assert(rv.subrange(0, i + 1).drop_last() =~= rv.subrange(0, i as int));
        assert(rv[i as int] == row@);
        let mut has_link = false;
        let mut k: usize = 0;
        while k < row.len()
            invariant
                k <= row@.len(),
                has_link == exists|j: int| 0 <= j < k && is_event_link(#[trigger] row@[j]),
            decreases row@.len() - k,
        {
            if is_event_link_of(&row[k]) {
                has_link = true;
            }
            k = k + 1;
        }
        if has_link && row.len() >= 3 {
            match link_target_of(&row[2], ProgramKind::CourseDetails) {
                Some(id) => {
                    r.push(
                        Course {
                            tucan_id: id,
                            tucan_last_checked: now,
                            title: copy_string(&row[1].inner_html),
                            course_id: copy_string(&row[0].inner_html),
                            sws: 0,
                            content: String::new(),
                            done: false,
                        },
                    );
                },
                None => {},
            }
        }
        i = i + 1;
    }
    assert(rv.subrange(0, rows@.len() as int) =~= rv);
    r
}

pub open spec fn nbsp() -> Seq<char> {
    seq!['&', 'n', 'b', 's', 'p', ';']
}

/// The credits that the text after the "Credits: " caption states: a whole number written
/// with `,0`, and 0 where the text is anything else.
pub open spec fn credits_value(next: Seq<char>) -> i32 {
    let t = trimmed(next);
    if t.len() >= 2 && t.subrange(t.len() - 2, t.len() as int) == seq![',', '0'] && (int_value(
        t.subrange(0, t.len() - 2),
    ) matches Some(v) && -2147483647 <= v <= 2147483647) {
        int_value(t.subrange(0, t.len() - 2)).unwrap() as i32
    } else {
        0
    }
}

/// The part of a module page that is missing, if one is: the heading, the title in it, the
/// credits caption with its text, or the content cell.
pub open spec fn module_missing(h1: Seq<Element>, labels: Seq<Element>, content: Seq<Element>) -> Option<Field> {
    if h1.len() == 0 {
        Some(Field::Heading)
    } else if after_first(h1[0].inner_html@, nbsp()) is None {
        Some(Field::Title)
    } else if !has_html(labels, "Credits: "@) || labels[first_html(labels, "Credits: "@)].next_text is None {
        Some(Field::Credits)
    } else if content.len() == 0 {
        Some(Field::Content)
    } else {
        None
    }
}

/// `r` is what a module page with the given parts yields for the module `id` at `now`.
pub open spec fn module_extracted(
    r: Result<(Module, Vec<Course>), Field>,
    id: Seq<u8>,
    h1: Seq<Element>,
    labels: Seq<Element>,
    content: Seq<Element>,
    rows: Seq<Seq<Element>>,
    now: i64,
) -> bool {
    match module_missing(h1, labels, content) {
        Some(f) => r == Err::<(Module, Vec<Course>), Field>(f),
        None => r matches Ok((m, cs)) && {
            let text = h1[0].inner_html@;
            &&& m.tucan_id@ == id
            &&& m.module_id@ == trimmed(before_first(text, nbsp()))
            &&& m.title@ == trimmed(before_first(after_first(text, nbsp()).unwrap(), nbsp()))
            &&& m.credits == Some(credits_value(labels[first_html(labels, "Credits: "@)].next_text.unwrap()@))
            &&& m.content@ == content[0].inner_html@
            &&& m.tucan_last_checked == now
            &&& m.done
            &&& cs@.len() == row_courses(rows).len()
            &&& forall|j: int| 0 <= j < cs@.len() ==> course_stub(#[trigger] cs@[j], row_courses(rows)[j], now)
        },
    }
}

fn credits_of(next: &String) -> (r: i32)
    ensures
        r == credits_value(next@),
{
    let t = chars_of(trim(next.as_str()).as_str());
    proof {
        assert(t@ == trimmed(next@));
    }
    let n = t.len();
    if n >= 2 && t[n - 2] == ',' && t[n - 1] == '0' {
        assert(t@.subrange(n - 2, n as int) =~= seq![',', '0']);
        let head = crate::text::slice_chars(&t, 0, n - 2);
        match parse_int(&head, 2147483647) {
            Some(v) => v as i32,
            None => 0,
        }
    } else {
        proof {
            if n >= 2 {
                assert(t@.subrange(n - 2, n as int)[0] == t@[n - 2]);
                assert(t@.subrange(n - 2, n as int)[1] == t@[n - 1]);
            }
        }
        0
    }
}

fn nbsp_chars() -> (r: Vec<char>)
    ensures
        r@ == nbsp(),
{
    let r = vec!['&', 'n', 'b', 's', 'p', ';'];
    assert(r@ =~= nbsp());
    r
}

/// Reads a module page from its parts: the `h1` headings, the bold captions of the left
/// column, its content cells, and the links of each table row.
pub fn module_from_parts(
    id: &[u8],
    h1: &Vec<Element>,
    labels: &Vec<Element>,
    content: &Vec<Element>,
    rows: &Vec<Vec<Element>>,
    now: i64,
) -> (r: Result<(Module, Vec<Course>), Field>)
    ensures
        module_extracted(r, id@, h1@, labels@, content@, rows@.map_values(|v: Vec<Element>| v@), now),
{
    if h1.len() == 0 {
        return Err(Field::Heading);
    }
    let text = chars_of(h1[0].inner_html.as_str());
    let sep = nbsp_chars();
    let (first, rest) = split_first(&text, &sep);
    let rest = match rest {
        Some(r) => r,
        None => {
            return Err(Field::Title);
        },
    };
    let (second, _) = split_first(&rest, &sep);
    let credits = match find_html(labels, "Credits: ") {
        Some(i) => match &labels[i].next_text {
            Some(t) => credits_of(t),
            None => {
                return Err(Field::Credits);
            },
        },
        None => {
            return Err(Field::Credits);
        },
    };
    if content.len() == 0 {
        return Err(Field::Content);
    }
    let module_id = trim(string_of(&first).as_str());
    let title = trim(string_of(&second).as_str());
    let courses = courses_from_rows(rows, now);
    let mut tucan_id: Vec<u8> = Vec::new();
    let mut k: usize = 0;
    while k < id.len()
        invariant
            k <= id@.len(),
            tucan_id@ == id@.subrange(0, k as int),
        decreases id@.len() - k,
    {
        tucan_id.push(id[k]);
        k = k + 1;
    }
    assert(tucan_id@ =~= id@);
    Ok(
        (
            Module {
                tucan_id,
                tucan_last_checked: now,
                title,
                module_id,
                credits: Some(credits),
                content: copy_string(&content[0].inner_html),
                done: true,
            },
            courses,
        ),
    )
}

/// The end of the run of course links in `ts` that starts at `i`.
pub open spec fn run_end(ts: Seq<Element>, i: int) -> int
    decreases ts.len() - i,
{
    if 0 <= i < ts.len() && is_event_link(ts[i]) {
        run_end(ts, i + 1)
    } else {
        i
    }
}

proof fn lemma_run_end(ts: Seq<Element>, i: int)
    requires
        0 <= i <= ts.len(),
    ensures
        i <= run_end(ts, i) <= ts.len(),
        i < ts.len() && is_event_link(ts[i]) ==> run_end(ts, i) > i,
        forall|k: int| i <= k < run_end(ts, i) ==> is_event_link(#[trigger] ts[k]),
        run_end(ts, i) < ts.len() ==> !is_event_link(ts[run_end(ts, i)]),
    decreases ts.len() - i,
{
    if i < ts.len() && is_event_link(ts[i]) {
        lemma_run_end(ts, i + 1);
    }
}

/// The links of a registration page from `i` on, grouped: a module header with the course
/// links right after it, or a run of course links with no header before it. Each group is
/// the position of its header, if any, and the range of its course links.
pub open spec fn batches(ts: Seq<Element>, i: int) -> Seq<(Option<int>, int, int)>
    decreases ts.len() - i,
{
    if i < 0 || i >= ts.len() {
        Seq::empty()
    } else if is_event_link(ts[i]) {
        let e = run_end(ts, i);
        if e > i && e <= ts.len() {
            seq![(None, i, e)] + batches(ts, e)
        } else {
            Seq::empty()
        }
    } else {
        let e = run_end(ts, i + 1);
        if e > i && e <= ts.len() {
            seq![(Some(i), i + 1, e)] + batches(ts, e)
        } else {
            Seq::empty()
        }
    }
}

/// A group with its positions as integers.
pub open spec fn batch_view(b: (Option<usize>, usize, usize)) -> (Option<int>, int, int) {
    (
        match b.0 {
            Some(h) => Some(h as int),
            None => None,
        },
        b.1 as int,
        b.2 as int,
    )
}

/// The groups of `batches(ts, 0)`, computed.
pub fn batch_links(ts: &Vec<Element>) -> (r: Vec<(Option<usize>, usize, usize)>)
    ensures
        r@.map_values(|b: (Option<usize>, usize, usize)| batch_view(b)) == batches(ts@, 0),
{
    let n = ts.len();
    let mut r: Vec<(Option<usize>, usize, usize)> = Vec::new();
    let mut i: usize = 0;
    while i < n
        invariant
            i <= n,
            n == ts@.len(),
            r@.map_values(|b: (Option<usize>, usize, usize)| batch_view(b)) + batches(ts@, i as int) == batches(ts@, 0),
        decreases n - i,
    {
        let header: Option<usize> = if is_event_link_of(&ts[i]) {
            None
        } else {
            Some(i)
        };
        let start: usize = if header.is_some() {
            i + 1
        } else {
            i
        };
        let mut e = start;
        proof {
            lemma_run_end(ts@, start as int);
        }
        while e < n && is_event_link_of(&ts[e])
            invariant
                start <= e <= n,
                n == ts@.len(),
                run_end(ts@, e as int) == run_end(ts@, start as int),
            decreases n - e,
        {
            e = e + 1;
        }
        let ghost prev = r@;
        r.push((header, start, e));
        proof {
            let f = |b: (Option<usize>, usize, usize)| batch_view(b);
            assert(r@.map_values(f) =~= prev.map_values(f).push(batch_view((header, start, e))));
            assert(batches(ts@, i as int) =~= seq![batch_view((header, start, e))] + batches(ts@, e as int));
        }
        i = e;
    }
    proof {
        let f = |b: (Option<usize>, usize, usize)| batch_view(b);
        assert(r@.map_values(f) + Seq::<(Option<int>, int, int)>::empty() =~= r@.map_values(f));
    }
    r
}

/// What a registration page yields: the node itself (complete), its child nodes, and the
/// modules and courses it lists with the links between them.
#[derive(Debug)]
pub struct RegistrationPage {
    pub menu: ModuleMenu,
    pub submenus: Vec<ModuleMenu>,
    pub modules: Vec<Module>,
    pub courses: Vec<Course>,
    pub module_courses: Vec<ModuleCourse>,
}

pub open spec fn descnavi() -> Seq<char> {
    "<!--$MG_DESCNAVI-->"@
}

/// The position of the last title link that is not the navigation placeholder.
pub open spec fn last_title(ts: Seq<Element>) -> Option<int>
    decreases ts.len(),
{
    if ts.len() == 0 {
        None
    } else if ts.last().inner_html@ != descnavi() {
        Some(ts.len() - 1)
    } else {
        last_title(ts.drop_last())
    }
}

/// A module header link that leads to a module and carries its code and title.
pub open spec fn header_ok(e: Element) -> bool {
    link_target(e, ProgramKind::ModuleDetails) is Some && e.text@.len() >= 2
}

/// A course link that leads to a course and carries its code and title.
pub open spec fn course_link(e: Element) -> Option<(Seq<u8>, Seq<char>, Seq<char>)> {
    if link_target(e, ProgramKind::CourseDetails) is Some && e.text@.len() >= 2 {
        Some((link_target(e, ProgramKind::CourseDetails).unwrap(), e.text@[0]@, e.text@[1]@))
    } else {
        None
    }
}

/// The identifier of the module of a group: its header's target, or the placeholder.
pub open spec fn batch_module_id(ts: Seq<Element>, b: (Option<int>, int, int), placeholder: Seq<u8>) -> Seq<u8> {
    match b.0 {
        Some(h) => link_target(ts[h], ProgramKind::ModuleDetails).unwrap(),
        None => placeholder,
    }
}

/// The courses of the links `ts[s..e]`, each with the module `m` they belong to; links that
/// do not lead to a course are skipped.
pub open spec fn range_courses(ts: Seq<Element>, s: int, e: int, m: Seq<u8>) -> Seq<(Seq<u8>, (Seq<u8>, Seq<char>, Seq<char>))>
    decreases e - s,
{
    if e <= s {
        Seq::empty()
    } else {
        let prev = range_courses(ts, s, e - 1, m);
        match course_link(ts[e - 1]) {
            Some(c) => prev.push((m, c)),
            None => prev,
        }
    }
}

/// The courses of all groups, in order, each with the module it belongs to.
pub open spec fn grouped_courses(ts: Seq<Element>, bs: Seq<(Option<int>, int, int)>, placeholder: Seq<u8>) -> Seq<
    (Seq<u8>, (Seq<u8>, Seq<char>, Seq<char>)),
>
    decreases bs.len(),
{
    if bs.len() == 0 {
        Seq::empty()
    } else {
        let b = bs.last();
        grouped_courses(ts, bs.drop_last(), placeholder) + range_courses(ts, b.1, b.2, batch_module_id(ts, b, placeholder))
    }
}

/// The child nodes that the submenu links name: identifier and trimmed name.
pub open spec fn submenu_entries(ls: Seq<Element>) -> Seq<(Seq<u8>, Seq<char>)>
    decreases ls.len(),
{
    if ls.len() == 0 {
        Seq::empty()
    } else {
        let prev = submenu_entries(ls.drop_last());
        match link_target(ls.last(), ProgramKind::Registration) {
            Some(id) => prev.push((id, trimmed(ls.last().inner_html@))),
            None => prev,
        }
    }
}

/// The group has a header that is not a valid module link.
pub open spec fn bad_header(ts: Seq<Element>, b: (Option<int>, int, int)) -> bool {
    b.0 matches Some(h) && !header_ok(ts[h])
}

/// The part of a registration page that is missing or contradicts itself, if one does.
pub open spec fn registration_missing(titles: Seq<Element>, module_lists: int, submenu_lists: int, ts: Seq<Element>) -> Option<Field> {
    if last_title(titles) is None {
        Some(Field::MenuTitle)
    } else if (module_lists > 0) == (submenu_lists > 0) {
        Some(Field::MenuKind)
    } else if exists|j: int| 0 <= j < batches(ts, 0).len() && bad_header(ts, #[trigger] batches(ts, 0)[j]) {
        Some(Field::ModuleHeader)
    } else {
        None
    }
}

/// `m` is the module of the group `b`, checked at `now`.
pub open spec fn batch_module(m: Module, ts: Seq<Element>, b: (Option<int>, int, int), placeholder: Seq<u8>, now: i64) -> bool {
    &&& m.tucan_id@ == batch_module_id(ts, b, placeholder)
    &&& m.tucan_last_checked == now
    &&& match b.0 {
        Some(h) => m.module_id@ == ts[h].text@[0]@ && m.title@ == ts[h].text@[1]@ && m.credits is None
            && m.content@.len() == 0 && !m.done,
        None => m.title@ == "Uncategorized courses"@ && m.module_id@ == "uncategorized-courses"@
            && m.content@.len() == 0 && m.credits == Some(0i32) && m.done,
    }
}

/// `r` is what a registration page with the given parts yields for the node `id` at `now`.
pub open spec fn registration_extracted(
    r: Result<RegistrationPage, Field>,
    id: Seq<u8>,
    titles: Seq<Element>,
    module_lists: int,
    submenu_lists: int,
    ts: Seq<Element>,
    subs: Seq<Element>,
    placeholder: Seq<u8>,
    now: i64,
) -> bool {
    match registration_missing(titles, module_lists, submenu_lists, ts) {
        Some(f) => r == Err::<RegistrationPage, Field>(f),
        None => r matches Ok(p) && {
            let bs = batches(ts, 0);
            let cs = grouped_courses(ts, bs, placeholder);
            let es = submenu_entries(subs);
            &&& p.menu.tucan_id@ == id
            &&& p.menu.name@ == titles[last_title(titles).unwrap()].inner_html@
            &&& p.menu.done && p.menu.parent is None && p.menu.tucan_last_checked == now
            &&& p.modules@.len() == bs.len()
            &&& forall|j: int| 0 <= j < bs.len() ==> batch_module(#[trigger] p.modules@[j], ts, bs[j], placeholder, now)
            &&& p.courses@.len() == cs.len()
            &&& forall|j: int| 0 <= j < cs.len() ==> course_stub(#[trigger] p.courses@[j], cs[j].1, now)
            &&& p.module_courses@.len() == cs.len()
            &&& forall|j: int| 0 <= j < cs.len() ==> (#[trigger] p.module_courses@[j]).module@ == cs[j].0
                && p.module_courses@[j].course@ == cs[j].1.0
            &&& p.submenus@.len() == es.len()
            &&& forall|j: int| 0 <= j < es.len() ==> {
                let m = #[trigger] p.submenus@[j];
                &&& m.tucan_id@ == es[j].0 && m.name@ == es[j].1
                &&& m.parent matches Some(q) && q@ == id
                &&& !m.done && m.tucan_last_checked == now
            }
        },
    }
}

pub fn last_title_of(ts: &Vec<Element>) -> (r: Option<usize>)
    ensures
        r matches Some(i) ==> last_title(ts@) == Some(i as int) && i < ts@.len(),
        r is None ==> last_title(ts@) is None,
{
    let mut i: usize = ts.len();
    assert(ts@.subrange(0, ts@.len() as int) =~= ts@);
    while i > 0
        invariant
            i <= ts@.len(),
            last_title(ts@) == last_title(ts@.subrange(0, i as int)),
        decreases i,
    {
        assert(ts@.subrange(0, i as int).drop_last() =~= ts@.subrange(0, i - 1));
        if !str_eq(ts[i - 1].inner_html.as_str(), "<!--$MG_DESCNAVI-->") {
            return Some(i - 1);
        }
        i = i - 1;
    }
    None
}

fn course_link_of(e: &Element) -> (r: Option<(Vec<u8>, String, String)>)
    ensures
        r matches Some(c) ==> course_link(*e) == Some((c.0@, c.1@, c.2@)),
        r is None ==> course_link(*e) is None,
{
    match link_target_of(e, ProgramKind::CourseDetails) {
        Some(id) => {
            if e.text.len() >= 2 {
                Some((id, copy_string(&e.text[0]), copy_string(&e.text[1])))
            } else {
                None
            }
        },
        None => None,
    }
}

/// Reads a registration page of the node `id` from its parts: the title links, the number of
/// module tables and of submenu lists, the links of the module tables in document order, and
/// the submenu links. Courses listed before any module header go to the module `placeholder`.
pub fn registration_from_parts(
    id: &[u8],
    titles: &Vec<Element>,
    module_lists: usize,
    submenu_lists: usize,
    ts: &Vec<Element>,
    subs: &Vec<Element>,
    placeholder: &[u8],
    now: i64,
) -> (r: Result<RegistrationPage, Field>)
    ensures
        registration_extracted(r, id@, titles@, module_lists as int, submenu_lists as int, ts@, subs@, placeholder@, now),
{
    let t = match last_title_of(titles) {
        Some(t) => t,
        None => {
            return Err(Field::MenuTitle);
        },
    };
    if (module_lists > 0) == (submenu_lists > 0) {
        return Err(Field::MenuKind);
    }
    let bs = batch_links(ts);
    let ghost bsv = batches(ts@, 0);
    assert(bs@.map_values(|b: (Option<usize>, usize, usize)| batch_view(b)) == bsv);
    proof {
        lemma_batches_in_range(ts@, 0);
    }
    let mut modules: Vec<Module> = Vec::new();
    let mut courses: Vec<Course> = Vec::new();
    let mut links: Vec<ModuleCourse> = Vec::new();
    let mut j: usize = 0;
    while j < bs.len()
        invariant
            j <= bs@.len(),
            bs@.map_values(|b: (Option<usize>, usize, usize)| batch_view(b)) == bsv,
            bsv == batches(ts@, 0),
            last_title(titles@) is Some,
            (module_lists > 0) != (submenu_lists > 0),
            forall|k: int| 0 <= k < bsv.len() ==> batch_in_range(ts@, #[trigger] bsv[k]),
            forall|k: int| 0 <= k < j ==> !bad_header(ts@, #[trigger] bsv[k]),
            modules@.len() == j,
            forall|k: int| 0 <= k < j ==> batch_module(#[trigger] modules@[k], ts@, bsv[k], placeholder@, now),
            courses@.len() == grouped_courses(ts@, bsv.subrange(0, j as int), placeholder@).len(),
            links@.len() == courses@.len(),
            forall|k: int| 0 <= k < courses@.len() ==> course_stub(#[trigger] courses@[k], grouped_courses(ts@, bsv.subrange(0, j as int), placeholder@)[k].1, now),
            forall|k: int| 0 <= k < courses@.len() ==> (#[trigger] links@[k]).module@ == grouped_courses(ts@, bsv.subrange(0, j as int), placeholder@)[k].0
                && links@[k].course@ == grouped_courses(ts@, bsv.subrange(0, j as int), placeholder@)[k].1.0,
        decreases bs@.len() - j,
    {
        let (header, start, end) = bs[j];
        assert(bs@.map_values(|b: (Option<usize>, usize, usize)| batch_view(b))[j as int] == batch_view(bs@[j as int]));
        assert(batch_view(bs@[j as int]) == bsv[j as int]);
        assert(batch_in_range(ts@, bsv[j as int]));
        let module = match header {
            Some(h) => {
                assert(bs@[j as int].0 == Some(h));
                assert(bsv[j as int].0 == Some(h as int));
                let target = link_target_of(&ts[h], ProgramKind::ModuleDetails);
                match target {
                    Some(mid) => {
                        if ts[h].text.len() < 2 {
                            assert(bad_header(ts@, batches(ts@, 0)[j as int]));
                            assert(registration_missing(titles@, module_lists as int, submenu_lists as int, ts@) == Some(Field::ModuleHeader));
                            return Err(Field::ModuleHeader);
                        }
                        Module {
                            tucan_id: mid,
                            tucan_last_checked: now,
                            title: copy_string(&ts[h].text[1]),
                            module_id: copy_string(&ts[h].text[0]),
                            credits: None,
                            content: String::new(),
                            done: false,
                        }
                    },
                    None => {
                        assert(bad_header(ts@, batches(ts@, 0)[j as int]));
                        assert(registration_missing(titles@, module_lists as int, submenu_lists as int, ts@) == Some(Field::ModuleHeader));
                        return Err(Field::ModuleHeader);
                    },
                }
            },
            None => Module {
                tucan_id: crate::text::copy_slice(placeholder),
                tucan_last_checked: now,
                title: String::from_str("Uncategorized courses"),
                module_id: String::from_str("uncategorized-courses"),
                credits: Some(0),
                content: String::new(),
                done: true,
            },
        };
        let ghost mid = module.tucan_id@;
        assert(mid == batch_module_id(ts@, bsv[j as int], placeholder@));
        let ghost gc_prev = grouped_courses(ts@, bsv.subrange(0, j as int), placeholder@);
        let ghost c0 = courses@.len();
        let mut k = start;
        while k < end
            invariant
                start <= k <= end <= ts@.len(),
                c0 == gc_prev.len(),
                courses@.len() == c0 + range_courses(ts@, start as int, k as int, mid).len(),
                links@.len() == courses@.len(),
                forall|x: int| 0 <= x < c0 ==> course_stub(#[trigger] courses@[x], gc_prev[x].1, now),
                forall|x: int| 0 <= x < c0 ==> (#[trigger] links@[x]).module@ == gc_prev[x].0 && links@[x].course@ == gc_prev[x].1.0,
                forall|x: int| 0 <= x < range_courses(ts@, start as int, k as int, mid).len() ==> course_stub(#[trigger] courses@[c0 + x], range_courses(ts@, start as int, k as int, mid)[x].1, now),
                forall|x: int| 0 <= x < range_courses(ts@, start as int, k as int, mid).len() ==> (#[trigger] links@[c0 + x]).module@ == mid && links@[c0 + x].course@ == range_courses(ts@, start as int, k as int, mid)[x].1.0,
                module.tucan_id@ == mid,
            decreases end - k,
        {
            match course_link_of(&ts[k]) {
                Some((cid, code, title)) => {
                    links.push(ModuleCourse { module: crate::text::copy_bytes(&module.tucan_id), course: crate::text::copy_bytes(&cid) });
                    courses.push(Course {
                        tucan_id: cid,
                        tucan_last_checked: now,
                        title,
                        course_id: code,
                        sws: 0,
                        content: String::new(),
                        done: false,
                    });
                },
                None => {},
            }
            k = k + 1;
        }
        modules.push(module);
        proof {
            assert(bsv.subrange(0, j + 1).drop_last() =~= bsv.subrange(0, j as int));
            let gc = grouped_courses(ts@, bsv.subrange(0, j + 1), placeholder@);
            lemma_range_courses_module(ts@, start as int, end as int, mid);
            assert(gc == gc_prev + range_courses(ts@, start as int, end as int, mid));
            assert forall|x: int| 0 <= x < courses@.len() implies course_stub(#[trigger] courses@[x], gc[x].1, now) by {
                if x >= c0 {
                    assert(courses@[c0 + (x - c0)] == courses@[x]);
                    assert(gc[x] == range_courses(ts@, start as int, end as int, mid)[x - c0]);
                } else {
                    assert(gc[x] == gc_prev[x]);
                }
            }
            assert forall|x: int| 0 <= x < courses@.len() implies (#[trigger] links@[x]).module@ == gc[x].0 && links@[x].course@ == gc[x].1.0 by {
                if x >= c0 {
                    assert(links@[c0 + (x - c0)] == links@[x]);
                    assert(gc[x] == range_courses(ts@, start as int, end as int, mid)[x - c0]);
                } else {
                    assert(gc[x] == gc_prev[x]);
                }
            }
        }
        j = j + 1;
    }
    assert(bsv.subrange(0, bsv.len() as int) =~= bsv);
    let mut submenus: Vec<ModuleMenu> = Vec::new();
    let mut i: usize = 0;
    while i < subs.len()
        invariant
            i <= subs@.len(),
            submenus@.len() == submenu_entries(subs@.subrange(0, i as int)).len(),
            forall|x: int| 0 <= x < submenus@.len() ==> {
                let m = #[trigger] submenus@[x];
                let es = submenu_entries(subs@.subrange(0, i as int));
                &&& m.tucan_id@ == es[x].0 && m.name@ == es[x].1
                &&& m.parent matches Some(q) && q@ == id@
                &&& !m.done && m.tucan_last_checked == now
            },
        decreases subs@.len() - i,
    {
        assert(subs@.subrange(0, i + 1).drop_last() =~= subs@.subrange(0, i as int));
        match link_target_of(&subs[i], ProgramKind::Registration) {
            Some(child) => {
                submenus.push(ModuleMenu {
                    tucan_id: child,
                    tucan_last_checked: now,
                    name: crate::text::trim(subs[i].inner_html.as_str()),
                    done: false,
                    parent: Some(crate::text::copy_slice(id)),
                });
            },
            None => {},
        }
        i = i + 1;
    }
    assert(subs@.subrange(0, subs@.len() as int) =~= subs@);
    Ok(RegistrationPage {
        menu: ModuleMenu {
            tucan_id: crate::text::copy_slice(id),
            tucan_last_checked: now,
            name: copy_string(&titles[t].inner_html),
            done: true,
            parent: None,
        },
        submenus,
        modules,
        courses,
        module_courses: links,
    })
}

proof fn lemma_range_courses_module(ts: Seq<Element>, s: int, e: int, m: Seq<u8>)
    ensures
        forall|x: int| 0 <= x < range_courses(ts, s, e, m).len() ==> (#[trigger] range_courses(ts, s, e, m)[x]).0 == m,
    decreases e - s,
{
    if e > s {
        lemma_range_courses_module(ts, s, e - 1, m);
        let prev = range_courses(ts, s, e - 1, m);
        assert forall|x: int| 0 <= x < range_courses(ts, s, e, m).len() implies (#[trigger] range_courses(ts, s, e, m)[x]).0 == m by {
            if x < prev.len() {
                assert(prev[x].0 == m);
            }
        }
    }
}

/// Each group's header and course links lie within the links, and the header comes first.
pub open spec fn batch_in_range(ts: Seq<Element>, b: (Option<int>, int, int)) -> bool {
    &&& 0 <= b.1 <= b.2 <= ts.len()
    &&& b.0 matches Some(h) ==> 0 <= h < ts.len() && b.1 == h + 1
}

proof fn lemma_batches_in_range(ts: Seq<Element>, i: int)
    requires
        0 <= i,
    ensures
        forall|k: int| 0 <= k < batches(ts, i).len() ==> batch_in_range(ts, #[trigger] batches(ts, i)[k]),
    decreases ts.len() - i,
{
    if i < ts.len() {
        if is_event_link(ts[i]) {
            lemma_run_end(ts, i);
            let e = run_end(ts, i);
            if e > i && e <= ts.len() {
                lemma_batches_in_range(ts, e);
                assert forall|k: int| 0 <= k < batches(ts, i).len() implies batch_in_range(ts, #[trigger] batches(ts, i)[k]) by {
                    if k > 0 {
                        assert(batches(ts, i)[k] == batches(ts, e)[k - 1]);
                    }
                }
            }
        } else {
            lemma_run_end(ts, i + 1);
            let e = run_end(ts, i + 1);
            if e > i && e <= ts.len() {
                lemma_batches_in_range(ts, e);
                assert forall|k: int| 0 <= k < batches(ts, i).len() implies batch_in_range(ts, #[trigger] batches(ts, i)[k]) by {
                    if k > 0 {
                        assert(batches(ts, i)[k] == batches(ts, e)[k - 1]);
                    }
                }
            }
        }
    }
}

pub open spec fn no_events_text() -> Seq<char> {
    "Es liegen keine Termine vor."@
}

/// The schedule text of a timetable row: date, start and end columns as `<date> <start>-<end>`.
pub open spec fn event_text(tds: Seq<Element>) -> Seq<char> {
    tds[1].inner_html@ + seq![' '] + tds[2].inner_html@ + seq!['-'] + tds[3].inner_html@
}

/// What one timetable row yields: nothing for the "no dates" row and for irregular entries,
/// otherwise its interval, room and teachers.
pub open spec fn event_row(tds: Seq<Element>, rooms: Seq<Element>) -> Result<Option<(ScheduleTime, Seq<char>, Seq<char>)>, Field> {
    if tds.len() >= 1 && tds[0].inner_html@ == no_events_text() {
        Ok(None)
    } else if tds.len() < 6 {
        Err(Field::EventColumns)
    } else if schedule_in(event_text(tds)) is Err {
        Err(Field::EventTime)
    } else if rooms.len() == 0 {
        Err(Field::Room)
    } else if schedule_in(event_text(tds)).unwrap().starred {
        Ok(None)
    } else {
        Ok(Some((schedule_in(event_text(tds)).unwrap(), rooms[0].inner_html@, trimmed(tds[5].inner_html@))))
    }
}

pub open spec fn rooms_at(rooms: Seq<Seq<Element>>, j: int) -> Seq<Element> {
    if 0 <= j < rooms.len() {
        rooms[j]
    } else {
        Seq::empty()
    }
}

/// The entries of the first `n` timetable rows, or the first row's failure.
pub open spec fn events_upto(rows: Seq<Seq<Element>>, rooms: Seq<Seq<Element>>, n: int) -> Result<
    Seq<(ScheduleTime, Seq<char>, Seq<char>)>,
    Field,
>
    decreases n,
{
    if n <= 0 {
        Ok(Seq::empty())
    } else {
        match events_upto(rows, rooms, n - 1) {
            Err(f) => Err(f),
            Ok(prev) => match event_row(rows[n - 1], rooms_at(rooms, n - 1)) {
                Err(f) => Err(f),
                Ok(None) => Ok(prev),
                Ok(Some(e)) => Ok(prev.push(e)),
            },
        }
    }
}

/// `e` is the schedule entry `d` of the owner `owner`.
pub open spec fn event_is(e: CourseEvent, d: (ScheduleTime, Seq<char>, Seq<char>), owner: Seq<u8>) -> bool {
    &&& e.course@ == owner
    &&& e.timestamp_start == d.0.start
    &&& e.timestamp_end == d.0.end
    &&& e.room@ == d.1
    &&& e.teachers@ == d.2
}

proof fn lemma_events_err_stays(rows: Seq<Seq<Element>>, rooms: Seq<Seq<Element>>, n: int, m: int, f: Field)
    requires
        0 <= n <= m,
        events_upto(rows, rooms, n) == Err::<Seq<(ScheduleTime, Seq<char>, Seq<char>)>, Field>(f),
    ensures
        events_upto(rows, rooms, m) == Err::<Seq<(ScheduleTime, Seq<char>, Seq<char>)>, Field>(f),
    decreases m - n,
{
    if m > n {
        lemma_events_err_stays(rows, rooms, n, m - 1, f);
    }
}

fn event_text_of(tds: &Vec<Element>) -> (r: String)
    requires
        tds@.len() >= 4,
    ensures
        r@ == event_text(tds@),
{
    let mut v = chars_of(tds[1].inner_html.as_str());
    v.push(' ');
    let b = chars_of(tds[2].inner_html.as_str());
    let mut i: usize = 0;
    let ghost v0 = v@;
    while i < b.len()
        invariant
            i <= b@.len(),
            v@ == v0 + b@.subrange(0, i as int),
        decreases b@.len() - i,
    {
        v.push(b[i]);
        i = i + 1;
    }
    v.push('-');
    let c = chars_of(tds[3].inner_html.as_str());
    let ghost v1 = v@;
    let mut k: usize = 0;
    while k < c.len()
        invariant
            k <= c@.len(),
            v@ == v1 + c@.subrange(0, k as int),
        decreases c@.len() - k,
    {
        v.push(c[k]);
        k = k + 1;
    }
    assert(b@.subrange(0, b@.len() as int) =~= b@);
    assert(c@.subrange(0, c@.len() as int) =~= c@);
    assert(v@ =~= event_text(tds@));
    string_of(&v)
}

/// Reads the timetable rows of the course or group `owner`: the cells of each row, and the
/// links in each row's room column.
pub fn events_from_rows(owner: &[u8], rows: &Vec<Vec<Element>>, rooms: &Vec<Vec<Element>>) -> (r: Result<Vec<CourseEvent>, Field>)
    ensures
        ({
            let want = events_upto(
                rows@.map_values(|v: Vec<Element>| v@),
                rooms@.map_values(|v: Vec<Element>| v@),
                rows@.len() as int,
            );
            &&& r matches Err(f) ==> want == Err::<Seq<(ScheduleTime, Seq<char>, Seq<char>)>, Field>(f)
            &&& r matches Ok(v) ==> want matches Ok(es) && v@.len() == es.len() && forall|j: int|
                0 <= j < es.len() ==> event_is(#[trigger] v@[j], es[j], owner@)
        }),
{
    let ghost rv = rows@.map_values(|v: Vec<Element>| v@);
    let ghost mv = rooms@.map_values(|v: Vec<Element>| v@);
    let mut out: Vec<CourseEvent> = Vec::new();
    let mut i: usize = 0;
    while i < rows.len()
        invariant
            i <= rows@.len(),
            rv == rows@.map_values(|v: Vec<Element>| v@),
            mv == rooms@.map_values(|v: Vec<Element>| v@),
            events_upto(rv, mv, i as int) matches Ok(es) && out@.len() == es.len() && forall|j: int|
                0 <= j < es.len() ==> event_is(#[trigger] out@[j], es[j], owner@),
        decreases rows@.len() - i,
    {
        let tds = &rows[i];
        assert(rv[i as int] == tds@);
        let ghost prev = events_upto(rv, mv, i as int).unwrap();
        if tds.len() >= 1 && str_eq(tds[0].inner_html.as_str(), "Es liegen keine Termine vor.") {
            i = i + 1;
            continue;
        }
        if tds.len() < 6 {
            proof {
                lemma_events_err_stays(rv, mv, i + 1, rv.len() as int, Field::EventColumns);
            }
            return Err(Field::EventColumns);
        }
        let text = event_text_of(tds);
        let time = match parse_datetime(text.as_str()) {
            Ok(t) => t,
            Err(_) => {
                proof {
                    lemma_events_err_stays(rv, mv, i + 1, rv.len() as int, Field::EventTime);
                }
                return Err(Field::EventTime);
            },
        };
        let room = if i < rooms.len() && rooms[i].len() > 0 {
            assert(mv[i as int] == rooms@[i as int]@);
            copy_string(&rooms[i][0].inner_html)
        } else {
            proof {
                assert(rooms_at(mv, i as int).len() == 0);
                lemma_events_err_stays(rv, mv, i + 1, rv.len() as int, Field::Room);
            }
            return Err(Field::Room);
        };
        if time.starred {
            i = i + 1;
            continue;
        }
        let ghost pre = out@;
        out.push(CourseEvent {
            course: crate::text::copy_slice(owner),
            timestamp_start: time.start,
            timestamp_end: time.end,
            room,
            teachers: trim(tds[5].inner_html.as_str()),
        });
        proof {
            let es = events_upto(rv, mv, i + 1).unwrap();
            assert(es == prev.push((time, rooms@[i as int]@[0].inner_html@, trimmed(tds@[5].inner_html@))));
            assert forall|j: int| 0 <= j < es.len() implies event_is(#[trigger] out@[j], es[j], owner@) by {
                if j < pre.len() {
                    assert(out@[j] == pre[j]);
                }
            }
        }
        i = i + 1;
    }
    assert(rows@.len() == rv.len());
    Ok(out)
}

/// The course groups that the first `n` entries of a course's group list name: the target of
/// each entry's arrow link and the entry's headline; entries whose link does not lead to a
/// course page are skipped.
pub open spec fn groups_upto(arrows: Seq<Seq<Element>>, heads: Seq<Seq<Element>>, n: int) -> Result<Seq<(Seq<u8>, Seq<char>)>, Field>
    decreases n,
{
    if n <= 0 {
        Ok(Seq::empty())
    } else {
        match groups_upto(arrows, heads, n - 1) {
            Err(f) => Err(f),
            Ok(prev) => if rooms_at(arrows, n - 1).len() == 0 {
                Err(Field::Link)
            } else if rooms_at(heads, n - 1).len() == 0 {
                Err(Field::GroupTitle)
            } else {
                match link_target(arrows[n - 1][0], ProgramKind::CourseDetails) {
                    Some(g) => Ok(prev.push((g, heads[n - 1][0].inner_html@))),
                    None => Ok(prev),
                }
            },
        }
    }
}

proof fn lemma_groups_err_stays(a: Seq<Seq<Element>>, h: Seq<Seq<Element>>, n: int, m: int, f: Field)
    requires
        0 <= n <= m,
        groups_upto(a, h, n) == Err::<Seq<(Seq<u8>, Seq<char>)>, Field>(f),
    ensures
        groups_upto(a, h, m) == Err::<Seq<(Seq<u8>, Seq<char>)>, Field>(f),
    decreases m - n,
{
    if m > n {
        lemma_groups_err_stays(a, h, n, m - 1, f);
    }
}

/// Reads the group list of the course `course`: the arrow links and the headlines of each entry.
pub fn groups_from_parts(course: &[u8], arrows: &Vec<Vec<Element>>, heads: &Vec<Vec<Element>>) -> (r: Result<Vec<CourseGroup>, Field>)
    ensures
        ({
            let want = groups_upto(
                arrows@.map_values(|v: Vec<Element>| v@),
                heads@.map_values(|v: Vec<Element>| v@),
                arrows@.len() as int,
            );
            &&& r matches Err(f) ==> want == Err::<Seq<(Seq<u8>, Seq<char>)>, Field>(f)
            &&& r matches Ok(v) ==> want matches Ok(gs) && v@.len() == gs.len() && forall|j: int|
                0 <= j < gs.len() ==> {
                    let g = #[trigger] v@[j];
                    g.tucan_id@ == gs[j].0 && g.title@ == gs[j].1 && g.course@ == course@ && !g.done
                }
        }),
{
    let ghost av = arrows@.map_values(|v: Vec<Element>| v@);
    let ghost hv = heads@.map_values(|v: Vec<Element>| v@);
    let mut out: Vec<CourseGroup> = Vec::new();
    let mut i: usize = 0;
    while i < arrows.len()
        invariant
            i <= arrows@.len(),
            av == arrows@.map_values(|v: Vec<Element>| v@),
            hv == heads@.map_values(|v: Vec<Element>| v@),
            groups_upto(av, hv, i as int) matches Ok(gs) && out@.len() == gs.len() && forall|j: int|
                0 <= j < gs.len() ==> {
                    let g = #[trigger] out@[j];
                    g.tucan_id@ == gs[j].0 && g.title@ == gs[j].1 && g.course@ == course@ && !g.done
                },
        decreases arrows@.len() - i,
    {
        let ghost prev = groups_upto(av, hv, i as int).unwrap();
        assert(av[i as int] == arrows@[i as int]@);
        if arrows[i].len() == 0 {
            proof {
                lemma_groups_err_stays(av, hv, i + 1, av.len() as int, Field::Link);
            }
            return Err(Field::Link);
        }
        if i >= heads.len() || heads[i].len() == 0 {
            proof {
                if i < heads@.len() {
                    assert(hv[i as int] == heads@[i as int]@);
                }
                lemma_groups_err_stays(av, hv, i + 1, av.len() as int, Field::GroupTitle);
            }
            return Err(Field::GroupTitle);
        }
        assert(hv[i as int] == heads@[i as int]@);
        match link_target_of(&arrows[i][0], ProgramKind::CourseDetails) {
            Some(g) => {
                let ghost pre = out@;
                out.push(CourseGroup {
                    tucan_id: g,
                    course: crate::text::copy_slice(course),
                    title: copy_string(&heads[i][0].inner_html),
                    done: false,
                });
                proof {
                    let gs = groups_upto(av, hv, i + 1).unwrap();
                    assert forall|j: int| 0 <= j < gs.len() implies ({
                        let g = #[trigger] out@[j];
                        g.tucan_id@ == gs[j].0 && g.title@ == gs[j].1 && g.course@ == course@ && !g.done
                    }) by {
                        if j < pre.len() {
                            assert(out@[j] == pre[j]);
                        }
                    }
                }
            },
            None => {},
        }
        i = i + 1;
    }
    Ok(out)
}

pub open spec fn newline() -> Seq<char> {
    seq!['\n']
}

/// The weekly hours that the text after the "Semesterwochenstunden: " caption states, or 0.
pub open spec fn sws_value(next: Seq<char>) -> i16 {
    if int_value(trimmed(next)) matches Some(v) && -32767 <= v <= 32767 {
        int_value(trimmed(next)).unwrap() as i16
    } else {
        0
    }
}

/// The part of a course page that is missing, if one is.
pub open spec fn course_missing(h1: Seq<Element>, labels: Seq<Element>, content: Seq<Element>, captions: Seq<Element>) -> Option<Field> {
    if h1.len() == 0 {
        Some(Field::Heading)
    } else if after_first(trimmed(h1[0].inner_html@), newline()) is None {
        Some(Field::Title)
    } else if content.len() == 0 {
        Some(Field::Content)
    } else if !has_html(captions, "Termine"@) {
        Some(Field::Timetable)
    } else if has_html(labels, "Semesterwochenstunden: "@) && labels[first_html(labels, "Semesterwochenstunden: "@)].next_text is None {
        Some(Field::Label)
    } else {
        None
    }
}

/// `c` is the course of a course page with the given parts, fetched at `now`.
pub open spec fn course_record(c: Course, id: Seq<u8>, h1: Seq<Element>, labels: Seq<Element>, content: Seq<Element>, now: i64) -> bool {
    let text = trimmed(h1[0].inner_html@);
    &&& c.tucan_id@ == id
    &&& c.course_id@ == crate::text::lower_of(crate::text::trimmed_dashes(crate::text::collapse_separators(trimmed(before_first(text, newline())))))
    &&& c.title@ == trimmed(before_first(after_first(text, newline()).unwrap(), newline()))
    &&& c.sws == (if has_html(labels, "Semesterwochenstunden: "@) {
        sws_value(labels[first_html(labels, "Semesterwochenstunden: "@)].next_text.unwrap()@)
    } else {
        0
    })
    &&& c.content@ == content[0].inner_html@
    &&& c.tucan_last_checked == now
    &&& c.done
}

fn sws_of(next: &String) -> (r: i16)
    ensures
        r == sws_value(next@),
{
    let t = chars_of(trim(next.as_str()).as_str());
    match parse_int(&t, 32767) {
        Some(v) => v as i16,
        None => 0,
    }
}

/// Reads the course record of a course page from its parts: the `h1` headings, the captions
/// of the left column, its content cells and the table captions.
pub fn course_from_parts(
    id: &[u8],
    h1: &Vec<Element>,
    labels: &Vec<Element>,
    content: &Vec<Element>,
    captions: &Vec<Element>,
    now: i64,
) -> (r: Result<Course, Field>)
    ensures
        course_missing(h1@, labels@, content@, captions@) matches Some(f) ==> r == Err::<Course, Field>(f),
        course_missing(h1@, labels@, content@, captions@) is None ==> (r matches Ok(c) && course_record(c, id@, h1@, labels@, content@, now)),
{
    if h1.len() == 0 {
        return Err(Field::Heading);
    }
    let text = chars_of(trim(h1[0].inner_html.as_str()).as_str());
    let nl = vec!['\n'];
    assert(nl@ =~= newline());
    let (first, rest) = split_first(&text, &nl);
    let rest = match rest {
        Some(r) => r,
        None => {
            return Err(Field::Title);
        },
    };
    let (second, _) = split_first(&rest, &nl);
    if content.len() == 0 {
        return Err(Field::Content);
    }
    if find_html(captions, "Termine").is_none() {
        return Err(Field::Timetable);
    }
    let sws = match find_html(labels, "Semesterwochenstunden: ") {
        Some(i) => match &labels[i].next_text {
            Some(t) => sws_of(t),
            None => {
                return Err(Field::Label);
            },
        },
        None => 0,
    };
    let code = trim(string_of(&first).as_str());
    Ok(Course {
        tucan_id: crate::text::copy_slice(id),
        tucan_last_checked: now,
        title: trim(string_of(&second).as_str()),
        course_id: crate::text::slug(code.as_str()),
        sws,
        content: copy_string(&content[0].inner_html),
        done: true,
    })
}

pub open spec fn plenum_text() -> Seq<char> {
    "Plenumsveranstaltung anzeigen"@
}

/// The part of a course group page that is missing, if one is: the link to the course it
/// belongs to, leading to a course page, and the group's headline.
pub open spec fn group_missing(arrows: Seq<Element>, heads: Seq<Element>) -> Option<Field> {
    if !has_html(arrows, plenum_text()) || link_target(arrows[first_html(arrows, plenum_text())], ProgramKind::CourseDetails) is None {
        Some(Field::Plenum)
    } else if heads.len() == 0 {
        Some(Field::GroupTitle)
    } else {
        None
    }
}

/// Reads the record of a course group page from its parts: the arrow links and the headlines
/// of its sub-header; the group is `id`.
pub fn group_from_parts(id: &[u8], arrows: &Vec<Element>, heads: &Vec<Element>) -> (r: Result<CourseGroup, Field>)
    ensures
        group_missing(arrows@, heads@) matches Some(f) ==> r == Err::<CourseGroup, Field>(f),
        group_missing(arrows@, heads@) is None ==> (r matches Ok(g) && g.tucan_id@ == id@ && g.course@
            == link_target(arrows@[first_html(arrows@, plenum_text())], ProgramKind::CourseDetails).unwrap() && g.title@
            == heads@[0].inner_html@ && g.done),
{
    let i = match find_html(arrows, "Plenumsveranstaltung anzeigen") {
        Some(i) => i,
        None => {
            return Err(Field::Plenum);
        },
    };
    let course = match link_target_of(&arrows[i], ProgramKind::CourseDetails) {
        Some(c) => c,
        None => {
            return Err(Field::Plenum);
        },
    };
    if heads.len() == 0 {
        return Err(Field::GroupTitle);
    }
    Ok(CourseGroup { tucan_id: crate::text::copy_slice(id), course, title: copy_string(&heads[0].inner_html), done: true })
}

/// What chrono's `NaiveDateTime::parse_from_str` reads from `text` with the format `format`.
pub uninterp spec fn parsed_date_time(text: Seq<char>, format: Seq<char>) -> Option<DateTime>;

/// Relies on chrono's `NaiveDateTime::parse_from_str`: the result depends on the text and the
/// format alone; the fields are copied out of the parsed value.
#[verifier::external_body]
fn parse_with_format(text: &str, format: &str) -> (r: Option<DateTime>)
    ensures
        r == parsed_date_time(text@, format@),
{
    let d = chrono::NaiveDateTime::parse_from_str(text, format).ok()?;
    Some(DateTime {
        year: chrono::Datelike::year(&d),
        month: chrono::Datelike::month(&d),
        day: chrono::Datelike::day(&d),
        hour: chrono::Timelike::hour(&d),
        minute: chrono::Timelike::minute(&d),
    })
}

pub open spec fn window_format() -> Seq<char> {
    "%d.%m.%y %H:%M"@
}

/// `t` without any number of leading `: `.
pub open spec fn strip_colons(t: Seq<char>) -> Seq<char>
    decreases t.len(),
{
    if t.len() >= 2 && t[0] == ':' && t[1] == ' ' {
        strip_colons(t.subrange(2, t.len() as int))
    } else {
        t
    }
}

/// The value after the caption `caption` among `labels`: the text right after it, trimmed and
/// without leading `: `; none where the caption or the text is missing.
pub open spec fn label_value(labels: Seq<Element>, caption: Seq<char>) -> Option<Seq<char>> {
    if has_html(labels, caption) && labels[first_html(labels, caption)].next_text is Some {
        Some(strip_colons(trimmed(labels[first_html(labels, caption)].next_text.unwrap()@)))
    } else {
        None
    }
}

pub open spec fn dash() -> Seq<char> {
    seq![' ', '-', ' ']
}

/// The window `start - end` that a label value states.
pub open spec fn window_of(v: Seq<char>) -> Option<(DateTime, DateTime)> {
    if after_first(v, dash()) is Some && parsed_date_time(before_first(v, dash()), window_format()) is Some
        && parsed_date_time(after_first(v, dash()).unwrap(), window_format()) is Some {
        Some((
            parsed_date_time(before_first(v, dash()), window_format()).unwrap(),
            parsed_date_time(after_first(v, dash()).unwrap(), window_format()).unwrap(),
        ))
    } else {
        None
    }
}

/// The part of an exam page that is missing or unreadable, if one is.
pub open spec fn exam_missing(labels: Seq<Element>) -> Option<Field> {
    let reg = label_value(labels, "Anmeldezeitraum"@);
    let unreg = label_value(labels, "Abmeldezeitraum"@);
    if reg is None || unreg is None || label_value(labels, "Semester"@) is None || label_value(labels, "Name"@) is None {
        Some(Field::Label)
    } else if window_of(reg.unwrap()) is None || window_of(unreg.unwrap()) is None {
        Some(Field::DateRange)
    } else if label_value(labels, "Termin"@) matches Some(t) && schedule_in(t) is Err {
        Some(Field::EventTime)
    } else {
        None
    }
}

/// `e` is the exam `id` that an exam page with the captions `labels` describes.
pub open spec fn exam_record(e: Exam, id: Seq<u8>, labels: Seq<Element>) -> bool {
    let reg = window_of(label_value(labels, "Anmeldezeitraum"@).unwrap()).unwrap();
    let unreg = window_of(label_value(labels, "Abmeldezeitraum"@).unwrap()).unwrap();
    let time = label_value(labels, "Termin"@);
    &&& e.tucan_id@ == id
    &&& e.exam_type@ == label_value(labels, "Name"@).unwrap()
    &&& e.semester@ == label_value(labels, "Semester"@).unwrap()
    &&& e.registration_start == Some(reg.0) && e.registration_end == Some(reg.1)
    &&& e.unregistration_start == Some(unreg.0) && e.unregistration_end == Some(unreg.1)
    &&& (match label_value(labels, "Pr\u{fc}fer"@) {
        Some(p) => e.examinator matches Some(x) && x@ == p,
        None => e.examinator is None,
    })
    &&& (match exam_room(labels) {
        Some(p) => e.room matches Some(x) && x@ == p,
        None => e.room is None,
    })
    &&& (match time {
        Some(t) => e.exam_time_start == Some(schedule_in(t).unwrap().start) && e.exam_time_end == Some(
            schedule_in(t).unwrap().end,
        ),
        None => e.exam_time_start is None && e.exam_time_end is None,
    })
    &&& e.done
}

fn strip_colons_of(t: Vec<char>) -> (r: Vec<char>)
    ensures
        r@ == strip_colons(t@),
    decreases t@.len(),
{
    if t.len() >= 2 && t[0] == ':' && t[1] == ' ' {
        let n = t.len();
        strip_colons_of(crate::text::slice_chars(&t, 2, n))
    } else {
        t
    }
}

fn label_value_of(labels: &Vec<Element>, caption: &str) -> (r: Option<String>)
    ensures
        r matches Some(v) ==> label_value(labels@, caption@) == Some(v@),
        r is None ==> label_value(labels@, caption@) is None,
{
    match find_html(labels, caption) {
        Some(i) => match &labels[i].next_text {
            Some(t) => {
                let c = strip_colons_of(chars_of(trim(t.as_str()).as_str()));
                Some(string_of(&c))
            },
            None => None,
        },
        None => None,
    }
}

fn window_of_text(v: &String) -> (r: Option<(DateTime, DateTime)>)
    ensures
        r == window_of(v@),
{
    let c = chars_of(v.as_str());
    let d = vec![' ', '-', ' '];
    assert(d@ =~= dash());
    let (a, b) = split_first(&c, &d);
    match b {
        Some(b) => {
            let fa = string_of(&a);
            let fb = string_of(&b);
            let x = parse_with_format(fa.as_str(), "%d.%m.%y %H:%M");
            let y = parse_with_format(fb.as_str(), "%d.%m.%y %H:%M");
            match (x, y) {
                (Some(x), Some(y)) => Some((x, y)),
                _ => None,
            }
        },
        None => None,
    }
}

/// The room that the caption "Raum" names, where there is one.
pub open spec fn exam_room(labels: Seq<Element>) -> Option<Seq<char>> {
    if has_html(labels, "Raum"@) && labels[first_html(labels, "Raum"@)].next_element_html is Some {
        Some(labels[first_html(labels, "Raum"@)].next_element_html.unwrap()@)
    } else {
        None
    }
}

fn room_of(labels: &Vec<Element>) -> (r: Option<String>)
    ensures
        r matches Some(x) ==> exam_room(labels@) == Some(x@),
        r is None ==> exam_room(labels@) is None,
{
    match find_html(labels, "Raum") {
        Some(i) => match &labels[i].next_element_html {
            Some(h) => Some(copy_string(h)),
            None => None,
        },
        None => None,
    }
}

/// Reads an exam page from the bold captions of its tables; the exam is `id`.
#[verifier::rlimit(100)]
pub fn exam_from_parts(id: &[u8], labels: &Vec<Element>) -> (r: Result<Exam, Field>)
    ensures
        exam_missing(labels@) matches Some(f) ==> r == Err::<Exam, Field>(f),
        exam_missing(labels@) is None ==> (r matches Ok(e) && exam_record(e, id@, labels@)),
{
    let reg = label_value_of(labels, "Anmeldezeitraum");
    let unreg = label_value_of(labels, "Abmeldezeitraum");
    let semester = label_value_of(labels, "Semester");
    let name = label_value_of(labels, "Name");
    let (reg, unreg, semester, name) = match (reg, unreg, semester, name) {
        (Some(a), Some(b), Some(c), Some(d)) => (a, b, c, d),
        _ => {
            return Err(Field::Label);
        },
    };
    let (rw, uw) = match (window_of_text(&reg), window_of_text(&unreg)) {
        (Some(a), Some(b)) => (a, b),
        _ => {
            return Err(Field::DateRange);
        },
    };
    let (start, end) = match label_value_of(labels, "Termin") {
        Some(t) => match parse_datetime(t.as_str()) {
            Ok(v) => (Some(v.start), Some(v.end)),
            Err(_) => {
                return Err(Field::EventTime);
            },
        },
        None => (None, None),
    };
    let room = room_of(labels);
    Ok(Exam {
        tucan_id: crate::text::copy_slice(id),
        exam_type: name,
        semester,
        exam_time_start: start,
        exam_time_end: end,
        registration_start: Some(rw.0),
        registration_end: Some(rw.1),
        unregistration_start: Some(uw.0),
        unregistration_end: Some(uw.1),
        examinator: label_value_of(labels, "Pr\u{fc}fer"),
        room,
        done: true,
    })
}

/// The entities of kind `k` that the links of a listing lead to, in order; links that lead
/// elsewhere are skipped.
pub open spec fn listing_ids(links: Seq<Element>, k: ProgramKind) -> Seq<Seq<u8>>
    decreases links.len(),
{
    if links.len() == 0 {
        Seq::empty()
    } else {
        let prev = listing_ids(links.drop_last(), k);
        match link_target(links.last(), k) {
            Some(id) => prev.push(id),
            None => prev,
        }
    }
}

/// The entities of kind `k` that the links of a listing lead to.
pub fn ids_from_links(links: &Vec<Element>, k: ProgramKind) -> (r: Vec<Vec<u8>>)
    ensures
        r@.map_values(|v: Vec<u8>| v@) == listing_ids(links@, k),
{
    let mut r: Vec<Vec<u8>> = Vec::new();
    let mut i: usize = 0;
    while i < links.len()
        invariant
            i <= links@.len(),
            r@.map_values(|v: Vec<u8>| v@) == listing_ids(links@.subrange(0, i as int), k),
        decreases links@.len() - i,
    {
        assert(links@.subrange(0, i + 1).drop_last() =~= links@.subrange(0, i as int));
        let ghost prev = r@;
        match link_target_of(&links[i], k) {
            Some(id) => {
                r.push(id);
                assert(r@.map_values(|v: Vec<u8>| v@) =~= prev.map_values(|v: Vec<u8>| v@).push(r@[i as int]@)
                    || r@.map_values(|v: Vec<u8>| v@) =~= prev.map_values(|v: Vec<u8>| v@).push(r@.last()@));
            },
            None => {},
        }
        i = i + 1;
    }
    assert(links@.subrange(0, links@.len() as int) =~= links@);
    r
}

/// What a user's exam listing yields: the exams as stubs, the modules and courses they
/// belong to as stubs, and the links between them.
#[derive(Debug)]
pub struct ExamListing {
    pub exams: Vec<Exam>,
    pub modules: Vec<Module>,
    pub courses: Vec<Course>,
    pub module_exams: Vec<ModuleExam>,
    pub course_exams: Vec<CourseExam>,
}

/// What one row of the exam listing says: the exam, its name, its time where one is given,
/// whether it belongs to a module (or else to a course), that entity and its title.
pub open spec fn exam_row(tds: Seq<Element>, owner: Seq<Element>, name: Seq<Element>, date: Seq<Element>) -> Result<
    (Seq<u8>, Seq<char>, Option<ScheduleTime>, bool, Seq<u8>, Seq<char>),
    Field,
> {
    if tds.len() < 5 || owner.len() == 0 || name.len() == 0 {
        Err(Field::ExamColumns)
    } else if link_target(name[0], ProgramKind::ExamDetails) is None {
        Err(Field::Link)
    } else if date.len() > 0 && schedule_in(date[0].inner_html@) is Err {
        Err(Field::EventTime)
    } else if link_target(owner[0], ProgramKind::ModuleDetails) is None && link_target(owner[0], ProgramKind::CourseDetails) is None {
        Err(Field::Link)
    } else {
        let is_module = link_target(owner[0], ProgramKind::ModuleDetails) is Some;
        Ok((
            link_target(name[0], ProgramKind::ExamDetails).unwrap(),
            name[0].inner_html@,
            if date.len() > 0 { Some(schedule_in(date[0].inner_html@).unwrap()) } else { None },
            is_module,
            if is_module {
                link_target(owner[0], ProgramKind::ModuleDetails).unwrap()
            } else {
                link_target(owner[0], ProgramKind::CourseDetails).unwrap()
            },
            owner[0].inner_html@,
        ))
    }
}

pub open spec fn at<T>(s: Seq<Seq<T>>, j: int) -> Seq<T> {
    if 0 <= j < s.len() {
        s[j]
    } else {
        Seq::empty()
    }
}

/// The rows `0..n` of the exam listing, or the first row's failure.
pub open spec fn exam_rows_upto(
    tds: Seq<Seq<Element>>,
    owners: Seq<Seq<Element>>,
    names: Seq<Seq<Element>>,
    dates: Seq<Seq<Element>>,
    n: int,
) -> Result<Seq<(Seq<u8>, Seq<char>, Option<ScheduleTime>, bool, Seq<u8>, Seq<char>)>, Field>
    decreases n,
{
    if n <= 0 {
        Ok(Seq::empty())
    } else {
        match exam_rows_upto(tds, owners, names, dates, n - 1) {
            Err(f) => Err(f),
            Ok(prev) => match exam_row(at(tds, n - 1), at(owners, n - 1), at(names, n - 1), at(dates, n - 1)) {
                Err(f) => Err(f),
                Ok(row) => Ok(prev.push(row)),
            },
        }
    }
}

proof fn lemma_exam_rows_err_stays(
    tds: Seq<Seq<Element>>,
    owners: Seq<Seq<Element>>,
    names: Seq<Seq<Element>>,
    dates: Seq<Seq<Element>>,
    n: int,
    m: int,
    f: Field,
)
    requires
        0 <= n <= m,
        exam_rows_upto(tds, owners, names, dates, n) == Err::<Seq<(Seq<u8>, Seq<char>, Option<ScheduleTime>, bool, Seq<u8>, Seq<char>)>, Field>(f),
    ensures
        exam_rows_upto(tds, owners, names, dates, m) == Err::<Seq<(Seq<u8>, Seq<char>, Option<ScheduleTime>, bool, Seq<u8>, Seq<char>)>, Field>(f),
    decreases m - n,
{
    if m > n {
        lemma_exam_rows_err_stays(tds, owners, names, dates, n, m - 1, f);
    }
}

/// The row `d` of the listing is recorded in `p` at position `j`, with the stub of its owner
/// and the link between them.
pub open spec fn exam_listed(p: ExamListing, j: int, d: (Seq<u8>, Seq<char>, Option<ScheduleTime>, bool, Seq<u8>, Seq<char>), now: i64) -> bool {
    let e = p.exams@[j];
    &&& e.tucan_id@ == d.0 && e.exam_type@ == d.1 && !e.done
    &&& e.exam_time_start == (match d.2 {
        Some(t) => Some(t.start),
        None => None,
    })
    &&& e.exam_time_end == (match d.2 {
        Some(t) => Some(t.end),
        None => None,
    })
    &&& d.3 ==> exists|k: int| 0 <= k < p.modules@.len() && (#[trigger] p.modules@[k]).tucan_id@ == d.4 && p.modules@[k].title@ == d.5
        && !p.modules@[k].done && p.module_exams@[k].module_id@ == d.4 && p.module_exams@[k].exam@ == d.0
    &&& !d.3 ==> exists|k: int| 0 <= k < p.courses@.len() && (#[trigger] p.courses@[k]).tucan_id@ == d.4 && p.courses@[k].title@ == d.5
        && !p.courses@[k].done && p.course_exams@[k].course_id@ == d.4 && p.course_exams@[k].exam@ == d.0
}

/// Reads a user's exam listing from the cells of each row and the links in its module,
/// name and date columns; stubs are checked at `now`.
#[verifier::rlimit(100)]
pub fn exams_from_rows(
    tds: &Vec<Vec<Element>>,
    owners: &Vec<Vec<Element>>,
    names: &Vec<Vec<Element>>,
    dates: &Vec<Vec<Element>>,
    now: i64,
) -> (r: Result<ExamListing, Field>)
    ensures
        ({
            let want = exam_rows_upto(
                tds@.map_values(|v: Vec<Element>| v@),
                owners@.map_values(|v: Vec<Element>| v@),
                names@.map_values(|v: Vec<Element>| v@),
                dates@.map_values(|v: Vec<Element>| v@),
                tds@.len() as int,
            );
            &&& r matches Err(f) ==> want == Err::<Seq<(Seq<u8>, Seq<char>, Option<ScheduleTime>, bool, Seq<u8>, Seq<char>)>, Field>(f)
            &&& r matches Ok(p) ==> want matches Ok(rows) && p.exams@.len() == rows.len()
                && p.modules@.len() == p.module_exams@.len() && p.courses@.len() == p.course_exams@.len()
                && forall|j: int| 0 <= j < rows.len() ==> exam_listed(p, j, #[trigger] rows[j], now)
        }),
{
    let ghost tv = tds@.map_values(|v: Vec<Element>| v@);
    let ghost ov = owners@.map_values(|v: Vec<Element>| v@);
    let ghost nv = names@.map_values(|v: Vec<Element>| v@);
    let ghost dv = dates@.map_values(|v: Vec<Element>| v@);
    let mut p = ExamListing { exams: Vec::new(), modules: Vec::new(), courses: Vec::new(), module_exams: Vec::new(), course_exams: Vec::new() };
    let mut i: usize = 0;
    while i < tds.len()
        invariant
            i <= tds@.len(),
            tv == tds@.map_values(|v: Vec<Element>| v@),
            ov == owners@.map_values(|v: Vec<Element>| v@),
            nv == names@.map_values(|v: Vec<Element>| v@),
            dv == dates@.map_values(|v: Vec<Element>| v@),
            p.modules@.len() == p.module_exams@.len(),
            p.courses@.len() == p.course_exams@.len(),
            exam_rows_upto(tv, ov, nv, dv, i as int) matches Ok(rows) && p.exams@.len() == rows.len()
                && forall|j: int| 0 <= j < rows.len() ==> exam_listed(p, j, #[trigger] rows[j], now),
        decreases tds@.len() - i,
    {
        let ghost prev = exam_rows_upto(tv, ov, nv, dv, i as int).unwrap();
        let ghost p0 = p;
        assert(at(tv, i as int) == tds@[i as int]@);
        let ok_cols = tds[i].len() >= 5 && i < owners.len() && owners[i].len() > 0 && i < names.len() && names[i].len() > 0;
        if !ok_cols {
            proof {
                if i < owners@.len() {
                    assert(at(ov, i as int) == owners@[i as int]@);
                }
                if i < names@.len() {
                    assert(at(nv, i as int) == names@[i as int]@);
                }
                lemma_exam_rows_err_stays(tv, ov, nv, dv, i + 1, tv.len() as int, Field::ExamColumns);
            }
            return Err(Field::ExamColumns);
        }
        assert(at(ov, i as int) == owners@[i as int]@);
        assert(at(nv, i as int) == names@[i as int]@);
        let exam_id = match link_target_of(&names[i][0], ProgramKind::ExamDetails) {
            Some(e) => e,
            None => {
                proof {
                    lemma_exam_rows_err_stays(tv, ov, nv, dv, i + 1, tv.len() as int, Field::Link);
                }
                return Err(Field::Link);
            },
        };
        let time = if i < dates.len() && dates[i].len() > 0 {
            assert(at(dv, i as int) == dates@[i as int]@);
            match parse_datetime(dates[i][0].inner_html.as_str()) {
                Ok(t) => Some(t),
                Err(_) => {
                    proof {
                        lemma_exam_rows_err_stays(tv, ov, nv, dv, i + 1, tv.len() as int, Field::EventTime);
                    }
                    return Err(Field::EventTime);
                },
            }
        } else {
            assert(at(dv, i as int).len() == 0);
            None
        };
        let as_module = link_target_of(&owners[i][0], ProgramKind::ModuleDetails);
        let as_course = link_target_of(&owners[i][0], ProgramKind::CourseDetails);
        let title = copy_string(&owners[i][0].inner_html);
        let ghost eid = exam_id@;
        let exam = Exam {
            tucan_id: crate::text::copy_bytes(&exam_id),
            exam_type: copy_string(&names[i][0].inner_html),
            semester: String::new(),
            exam_time_start: match time {
                Some(t) => Some(t.start),
                None => None,
            },
            exam_time_end: match time {
                Some(t) => Some(t.end),
                None => None,
            },
            registration_start: None,
            registration_end: None,
            unregistration_start: None,
            unregistration_end: None,
            examinator: None,
            room: None,
            done: false,
        };
        match as_module {
            Some(m) => {
                p.module_exams.push(ModuleExam { module_id: crate::text::copy_bytes(&m), exam: exam_id });
                p.modules.push(Module { tucan_id: m, tucan_last_checked: now, title, module_id: String::new(), credits: None, content: String::new(), done: false });
            },
            None => match as_course {
                Some(c) => {
                    p.course_exams.push(CourseExam { course_id: crate::text::copy_bytes(&c), exam: exam_id });
                    p.courses.push(Course { tucan_id: c, tucan_last_checked: now, title, course_id: String::new(), sws: 0, content: String::new(), done: false });
                },
                None => {
                    proof {
                        lemma_exam_rows_err_stays(tv, ov, nv, dv, i + 1, tv.len() as int, Field::Link);
                    }
                    return Err(Field::Link);
                },
            },
        }
        p.exams.push(exam);
        proof {
            let row = exam_row(at(tv, i as int), at(ov, i as int), at(nv, i as int), at(dv, i as int));
            assert(at(tv, i as int).len() >= 5);
            assert(link_target(at(nv, i as int)[0], ProgramKind::ExamDetails) is Some);
            assert(row is Ok);
            let rows = exam_rows_upto(tv, ov, nv, dv, i + 1).unwrap();
            assert(rows == prev.push(row.unwrap()));
            assert forall|j: int| 0 <= j < rows.len() implies exam_listed(p, j, #[trigger] rows[j], now) by {
                if j < prev.len() {
                    assert(exam_listed(p0, j, prev[j], now));
                    assert(p.exams@[j] == p0.exams@[j]);
                    if prev[j].3 {
                        let k = choose|k: int| 0 <= k < p0.modules@.len() && (#[trigger] p0.modules@[k]).tucan_id@ == prev[j].4 && p0.modules@[k].title@ == prev[j].5
                            && !p0.modules@[k].done && p0.module_exams@[k].module_id@ == prev[j].4 && p0.module_exams@[k].exam@ == prev[j].0;
                        assert(p.modules@[k] == p0.modules@[k]);
                        assert(p.module_exams@[k] == p0.module_exams@[k]);
                    } else {
                        let k = choose|k: int| 0 <= k < p0.courses@.len() && (#[trigger] p0.courses@[k]).tucan_id@ == prev[j].4 && p0.courses@[k].title@ == prev[j].5
                            && !p0.courses@[k].done && p0.course_exams@[k].course_id@ == prev[j].4 && p0.course_exams@[k].exam@ == prev[j].0;
                        assert(p.courses@[k] == p0.courses@[k]);
                        assert(p.course_exams@[k] == p0.course_exams@[k]);
                    }
                } else {
                    if rows[j].3 {
                        let k = p.modules@.len() - 1;
                        assert(p.modules@[k].tucan_id@ == rows[j].4);
                    } else {
                        let k = p.courses@.len() - 1;
                        assert(p.courses@[k].tucan_id@ == rows[j].4);
                    }
                }
            }
        }
        i = i + 1;
    }
    Ok(p)
}

/// The markup of the timetable: the element right after the caption "Termine", put back
/// into a table so that its rows parse as rows.
pub open spec fn timetable_text(captions: Seq<Element>) -> Option<Seq<char>> {
    if has_html(captions, "Termine"@) && captions[first_html(captions, "Termine"@)].next_element_html is Some {
        Some("<table>"@ + captions[first_html(captions, "Termine"@)].next_element_html.unwrap()@ + "</table>"@)
    } else {
        None
    }
}

/// The markup of the timetable that follows the caption "Termine", where there is one.
pub fn timetable_of(captions: &Vec<Element>) -> (r: Option<String>)
    ensures
        r matches Some(t) ==> timetable_text(captions@) == Some(t@),
        r is None ==> timetable_text(captions@) is None,
{
    match find_html(captions, "Termine") {
        Some(i) => match &captions[i].next_element_html {
            Some(h) => {
                let t = String::from_str("<table>");
                let t = t.concat(h.as_str());
                Some(t.concat("</table>"))
            },
            None => None,
        },
        None => None,
    }
}

/// `v` holds the schedule entries `es` of the owner `owner`, in order.
pub open spec fn events_are(v: Seq<CourseEvent>, es: Seq<(ScheduleTime, Seq<char>, Seq<char>)>, owner: Seq<u8>) -> bool {
    v.len() == es.len() && forall|j: int| 0 <= j < es.len() ==> event_is(#[trigger] v[j], es[j], owner)
}

/// `v` holds the group stubs `gs` of the course `course`, in order.
pub open spec fn groups_are(v: Seq<CourseGroup>, gs: Seq<(Seq<u8>, Seq<char>)>, course: Seq<u8>) -> bool {
    v.len() == gs.len() && forall|j: int| 0 <= j < gs.len() ==> {
        let g = #[trigger] v[j];
        g.tucan_id@ == gs[j].0 && g.title@ == gs[j].1 && g.course@ == course && !g.done
    }
}

} // verus!
