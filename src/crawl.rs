use vstd::prelude::*;

use crate::cache::{Table, event_of, events_written, group_of, has_links_to, kept, CacheStore};
use crate::codec::{address, encode, session_digits, ProgramKind};
use crate::extract::{
    course_from_parts, course_missing, course_record, events_are, events_upto, groups_are, groups_upto,
    timetable_of, timetable_text, events_from_rows, exam_from_parts, exam_missing,
    exam_record, exams_from_rows, group_from_parts, group_missing, groups_from_parts, has_html, ids_from_links,
    exam_listed, exam_rows_upto, last_title, link_target, link_target_of, listing_ids, module_extracted, module_from_parts, module_missing,
    registration_extracted, registration_from_parts, registration_missing, ExamListing, Field, RegistrationPage,
};
use crate::html::{nested_selection, select, select_nested, selection, Element};
use crate::models::{Course, CourseEvent, CourseGroup, Exam, Module, ModuleMenu};
use crate::datetime::ScheduleTime;
use crate::store::{done_row, has_link, inserted_absent, row_of, upserted, upserted_all, Link, Record};
use crate::text::{collapse_separators, int_value, lower_of, slug, trimmed, trimmed_dashes};

verus! {

/// The session of a logged-in user: the matriculation number, the session number that goes
/// into addresses, and the session id that goes into the cookie.
#[derive(Debug)]
pub struct TucanSession {
    pub matriculation_number: i32,
    pub session_nr: u64,
    pub session_id: String,
}

/// A user of the portal, on whose behalf pages are fetched and cached.
#[derive(Debug)]
pub struct TucanUser {
    pub session: TucanSession,
}

/// Why resolving an entity failed.
#[derive(Debug)]
pub enum CrawlError {
    /// The portal answered with its session timeout page: the user has to log in again.
    SessionExpired,
    /// The page at `url` lacks a part that the extraction needs.
    Extraction { url: String, field: Field },
}

/// What the crawl does next for an entity: answer from the cache, or fetch the page at `url`.
#[derive(Debug)]
pub enum Step {
    Cached,
    Fetch { url: String },
}

/// What base64's URL-safe alphabet without padding decodes the text `s` to.
pub uninterp spec fn url_safe_decoded(s: Seq<char>) -> Option<Seq<u8>>;

/// The nine bytes that the URL-safe base64 text `TUCANSCHEISS` stands for: each group of four
/// characters (6 bits each, `A`-`Z` being 0-25) gives three bytes.
pub open spec fn placeholder_bytes() -> Seq<u8> {
    seq![0x4du8, 0x40u8, 0x80u8, 0x35u8, 0x20u8, 0x87u8, 0x10u8, 0x84u8, 0x92u8]
}

/// Relies on base64's `general_purpose::URL_SAFE_NO_PAD` engine (`Engine::decode`): the result
/// depends on the text alone, and the text `TUCANSCHEISS` (twelve characters of the alphabet,
/// no padding) decodes to the nine bytes of `placeholder_bytes`.
#[verifier::external_body]
fn decode_url_safe(s: &str) -> (r: Option<Vec<u8>>)
    ensures
        r matches Some(v) ==> url_safe_decoded(s@) == Some(v@),
        r is None ==> url_safe_decoded(s@) is None,
        r matches Some(v) ==> (s@ == placeholder_text() ==> v@ == placeholder_bytes()),
        r is None ==> s@ != placeholder_text(),
{
    base64::Engine::decode(&base64::engine::general_purpose::URL_SAFE_NO_PAD, s).ok()
}

pub open spec fn placeholder_text() -> Seq<char> {
    "TUCANSCHEISS"@
}

/// A page of the course-details kind, as cached: a course with its groups and schedule
/// entries, or a course group with its schedule entries.
#[derive(Debug)]
pub enum CourseOrCourseGroup<'a> {
    Course((&'a Course, Vec<&'a CourseGroup>, Vec<&'a CourseEvent>)),
    CourseGroup((&'a CourseGroup, Vec<&'a CourseEvent>)),
}

/// The page is the portal's session timeout page: one of its `h1` headings reads `Timeout!`.
pub open spec fn timed_out(h1: Seq<Element>) -> bool {
    has_html(h1, "Timeout!"@)
}

/// `document` is the portal's session timeout page.
pub open spec fn timeout_page(document: Seq<char>) -> bool {
    selection(document, "h1"@) matches Some(h1) && timed_out(h1)
}

/// `r` is what fetching a page must give: `SessionExpired` on the timeout page, otherwise an
/// extraction error with the page's address `url` and the missing part, where one is missing,
/// and success where none is.
pub open spec fn outcome<T>(r: Result<T, CrawlError>, document: Seq<char>, missing: Option<Field>, url: Seq<char>) -> bool {
    if timeout_page(document) {
        r matches Err(CrawlError::SessionExpired)
    } else {
        match missing {
            Some(f) => r matches Err(CrawlError::Extraction { url: u, field: g }) && u@ == url && g == f,
            None => r is Ok,
        }
    }
}

/// The part of a registration page that is missing, if one is.
pub open spec fn registration_page_missing(d: Seq<char>) -> Option<Field> {
    if selection(d, "h1"@) is None {
        Some(Field::Heading)
    } else if selection(d, "h2 a"@) is None || selection(d, "table.tbcoursestatus"@) is None || selection(
        d,
        "#contentSpacer_IE ul"@,
    ) is None || selection(d, "table.tbcoursestatus strong a[href]"@) is None || selection(
        d,
        "#contentSpacer_IE ul a[href]"@,
    ) is None {
        Some(Field::MenuKind)
    } else {
        registration_missing(
            selection(d, "h2 a"@).unwrap(),
            selection(d, "table.tbcoursestatus"@).unwrap().len() as int,
            selection(d, "#contentSpacer_IE ul"@).unwrap().len() as int,
            selection(d, "table.tbcoursestatus strong a[href]"@).unwrap(),
        )
    }
}

/// The schedule rows of the timetable markup `t`: the cells of each row that is not hidden,
/// and the links in each such row's room column.
pub open spec fn timetable_rows(t: Seq<char>) -> Option<(Seq<Seq<Element>>, Seq<Seq<Element>>)> {
    if nested_selection(t, "tr:not(.rw-hide)"@, "td"@) is Some && nested_selection(t, "tr:not(.rw-hide)"@, "td:nth-child(5) a"@) is Some {
        Some((nested_selection(t, "tr:not(.rw-hide)"@, "td"@).unwrap(), nested_selection(t, "tr:not(.rw-hide)"@, "td:nth-child(5) a"@).unwrap()))
    } else {
        None
    }
}

/// The schedule entries of a page with the captions `captions`, or the part that is missing.
pub open spec fn page_events(captions: Seq<Element>) -> Result<Seq<(ScheduleTime, Seq<char>, Seq<char>)>, Field> {
    match timetable_text(captions) {
        None => Err(Field::Timetable),
        Some(t) => match timetable_rows(t) {
            None => Err(Field::Timetable),
            Some((rows, rooms)) => events_upto(rows, rooms, rows.len() as int),
        },
    }
}

/// The part of a course page that is missing, if one is.
pub open spec fn course_page_missing(d: Seq<char>) -> Option<Field> {
    let h1 = selection(d, "h1"@);
    let labels = selection(d, "#contentlayoutleft b"@);
    let content = selection(d, "#contentlayoutleft td.tbdata"@);
    let captions = selection(d, "caption"@);
    let arrows = nested_selection(d, ".dl-ul-listview .listelement"@, ".img_arrowLeft"@);
    let heads = nested_selection(d, ".dl-ul-listview .listelement"@, ".dl-ul-li-headline strong"@);
    if h1 is None {
        Some(Field::Heading)
    } else if labels is None || content is None || captions is None || arrows is None || heads is None {
        Some(Field::Timetable)
    } else if course_missing(h1.unwrap(), labels.unwrap(), content.unwrap(), captions.unwrap()) is Some {
        course_missing(h1.unwrap(), labels.unwrap(), content.unwrap(), captions.unwrap())
    } else if page_events(captions.unwrap()) is Err {
        Some(page_events(captions.unwrap())->Err_0)
    } else if groups_upto(arrows.unwrap(), heads.unwrap(), arrows.unwrap().len() as int) is Err {
        Some(groups_upto(arrows.unwrap(), heads.unwrap(), arrows.unwrap().len() as int)->Err_0)
    } else {
        None
    }
}

/// The part of a course group page that is missing, if one is.
pub open spec fn group_page_missing(d: Seq<char>) -> Option<Field> {
    let arrows = selection(d, ".img_arrowLeft"@);
    let heads = selection(d, ".dl-ul-listview .tbsubhead .dl-ul-li-headline strong"@);
    let captions = selection(d, "caption"@);
    if selection(d, "h1"@) is None {
        Some(Field::Heading)
    } else if arrows is None || heads is None || captions is None {
        Some(Field::Plenum)
    } else if group_missing(arrows.unwrap(), heads.unwrap()) is Some {
        group_missing(arrows.unwrap(), heads.unwrap())
    } else if page_events(captions.unwrap()) is Err {
        Some(page_events(captions.unwrap())->Err_0)
    } else {
        None
    }
}

/// The part of a course-details page that is missing, if one is: the course group marker
/// decides whether the page is read as a course group or as a course.
pub open spec fn course_or_group_page_missing(d: Seq<char>) -> Option<Field> {
    match selection(d, "form h1 + h2"@) {
        None => Some(Field::Heading),
        Some(v) => if v.len() > 0 {
            group_page_missing(d)
        } else {
            course_page_missing(d)
        },
    }
}

/// The part of an exam page that is missing, if one is.
pub open spec fn exam_page_missing(d: Seq<char>) -> Option<Field> {
    match selection(d, "table td b"@) {
        None => Some(Field::Label),
        Some(labels) => exam_missing(labels),
    }
}

/// The rows of a user's exam listing, or the part that is missing.
pub open spec fn exam_listing_rows(d: Seq<char>) -> Result<Seq<(Seq<u8>, Seq<char>, Option<ScheduleTime>, bool, Seq<u8>, Seq<char>)>, Field> {
    let tds = nested_selection(d, "table tbody tr"@, "td"@);
    let owners = nested_selection(d, "table tbody tr"@, "td:nth-child(2) a"@);
    let names = nested_selection(d, "table tbody tr"@, "td:nth-child(3) a"@);
    let dates = nested_selection(d, "table tbody tr"@, "td:nth-child(4) a"@);
    if tds is None || owners is None || names is None || dates is None {
        Err(Field::ExamColumns)
    } else {
        exam_rows_upto(tds.unwrap(), owners.unwrap(), names.unwrap(), dates.unwrap(), tds.unwrap().len() as int)
    }
}

/// The part of a user's exam listing that is missing, if one is.
pub open spec fn exam_listing_missing(d: Seq<char>) -> Option<Field> {
    match exam_listing_rows(d) {
        Err(f) => Some(f),
        Ok(_) => None,
    }
}

/// The part of a listing page that is missing, if one is.
pub open spec fn listing_missing(d: Seq<char>) -> Option<Field> {
    if selection(d, "tbody tr a"@) is None {
        Some(Field::Link)
    } else {
        None
    }
}

/// The matriculation number that the personal data page states, if it states one.
pub open spec fn matriculation_number_of(d: Seq<char>) -> Option<int> {
    match selection(d, "td[name=\"matriculationNumber\"]"@) {
        Some(cells) => if cells.len() > 0 && (int_value(trimmed(cells[0].inner_html@)) matches Some(v)
            && -2147483647 <= v <= 2147483647) {
            int_value(trimmed(cells[0].inner_html@))
        } else {
            None
        },
        None => None,
    }
}

/// The part of the personal data page that is missing, if one is.
pub open spec fn personal_data_missing(d: Seq<char>) -> Option<Field> {
    if matriculation_number_of(d) is None {
        Some(Field::Label)
    } else {
        None
    }
}

/// The part of the registration start page that is missing, if one is: a title link, and its
/// target.
pub open spec fn root_registration_missing(d: Seq<char>) -> Option<Field> {
    match selection(d, "h2 a"@) {
        None => Some(Field::MenuTitle),
        Some(titles) => match last_title(titles) {
            None => Some(Field::MenuTitle),
            Some(t) => if link_target(titles[t], ProgramKind::Registration) is None {
                Some(Field::Link)
            } else {
                None
            },
        },
    }
}

/// The part of a module page that is missing, if one is.
pub open spec fn module_page_missing(d: Seq<char>) -> Option<Field> {
    if selection(d, "h1"@) is None {
        Some(Field::Heading)
    } else if selection(d, "#contentlayoutleft b"@) is None {
        Some(Field::Credits)
    } else if selection(d, "#contentlayoutleft tr.tbdata"@) is None {
        Some(Field::Content)
    } else if nested_selection(d, "tr"@, "a"@) is None {
        Some(Field::Link)
    } else {
        module_missing(
            selection(d, "h1"@).unwrap(),
            selection(d, "#contentlayoutleft b"@).unwrap(),
            selection(d, "#contentlayoutleft tr.tbdata"@).unwrap(),
        )
    }
}

impl TucanUser {
    /// A slug for a free-text label: runs of ` /)(.` become one `-`, `-` at either end is
    /// dropped, and the rest is lowercased.
    pub fn normalize(string: &str) -> (r: String)
        ensures
            r@ == lower_of(trimmed_dashes(collapse_separators(string@))),
    {
        slug(string)
    }

    /// The address of the page `kind` of `id` within this user's session.
    pub fn url_of(&self, kind: ProgramKind, id: &[u8]) -> (r: String)
        ensures
            r@ == address(kind, id@, session_digits(Some(self.session.session_nr))),
    {
        encode(kind, id, Some(self.session.session_nr))
    }

    /// Whether the page's headings show the session timeout page.
    pub fn is_timeout(h1: &Vec<Element>) -> (r: bool)
        ensures
            r == timed_out(h1@),
    {
        crate::extract::find_html(h1, "Timeout!").is_some()
    }

    /// The address of the page `kind` of `id` within this user's session.
    pub open spec fn page_url(&self, kind: ProgramKind, id: Seq<u8>) -> Seq<char> {
        address(kind, id, session_digits(Some(self.session.session_nr)))
    }

    /// Answers from the cache when the module `id` is complete there, and asks for its page otherwise.
    pub fn module_step(&self, store: &CacheStore, id: &[u8]) -> (r: Step)
        requires
            store.wf(),
        ensures
            r is Cached <==> done_row(store.modules@, id@),
            r matches Step::Fetch { url } ==> url@ == address(
                ProgramKind::ModuleDetails,
                id@,
                session_digits(Some(self.session.session_nr)),
            ),
    {
        if store.cached_module(id).is_some() {
            Step::Cached
        } else {
            Step::Fetch { url: self.url_of(ProgramKind::ModuleDetails, id) }
        }
    }

    /// Extracts the module page `document` of `id` and persists the module (complete), its
    /// courses (as stubs where not known yet) and the links between them. It succeeds exactly
    /// when the page is no timeout page and has every part it needs; otherwise it fails with
    /// `SessionExpired` or with the missing part, and the cache is untouched.
    pub fn fetch_module(&self, store: &mut CacheStore, id: &[u8], document: &str, now: i64) -> (r: Result<(), CrawlError>)
        requires
            old(store).wf(),
        ensures
            final(store).wf(),
            outcome(r, document@, module_page_missing(document@), self.page_url(ProgramKind::ModuleDetails, id@)),
            r is Err ==> *final(store) == *old(store),
            r is Ok ==> final(store).keeps_except(&*old(store), set![Table::Modules, Table::Courses, Table::ModuleCourses]),
            r is Ok ==> done_row(final(store).modules@, id@) && final(store).grows_from(&*old(store)),
            r is Ok ==> exists|m: Module, cs: Vec<Course>| {
                &&& #[trigger] module_extracted(
                    Ok((m, cs)),
                    id@,
                    selection(document@, "h1"@).unwrap(),
                    selection(document@, "#contentlayoutleft b"@).unwrap(),
                    selection(document@, "#contentlayoutleft tr.tbdata"@).unwrap(),
                    nested_selection(document@, "tr"@, "a"@).unwrap(),
                    now,
                )
                &&& final(store).modules@ == upserted(old(store).modules@, m)
                &&& final(store).courses@ == inserted_absent(old(store).courses@, cs@)
                &&& has_links_to(final(store).module_courses@, id@, cs@)
                &&& forall|e: (Seq<u8>, Seq<u8>)| #[trigger] has_link(final(store).module_courses@, e) ==> has_link(
                    old(store).module_courses@,
                    e,
                ) || exists|j: int| 0 <= j < cs@.len() && e == (id@, #[trigger] cs@[j].key())
            },
    {
        let url = self.url_of(ProgramKind::ModuleDetails, id);
        let h1 = match select(document, "h1") {
            Some(h) => h,
            None => {
                return Err(CrawlError::Extraction { url, field: Field::Heading });
            },
        };
        if Self::is_timeout(&h1) {
            return Err(CrawlError::SessionExpired);
        }
        let labels = match select(document, "#contentlayoutleft b") {
            Some(v) => v,
            None => {
                return Err(CrawlError::Extraction { url, field: Field::Credits });
            },
        };
        let content = match select(document, "#contentlayoutleft tr.tbdata") {
            Some(v) => v,
            None => {
                return Err(CrawlError::Extraction { url, field: Field::Content });
            },
        };
        let rows = match select_nested(document, "tr", "a") {
            Some(v) => v,
            None => {
                return Err(CrawlError::Extraction { url, field: Field::Link });
            },
        };
        match module_from_parts(id, &h1, &labels, &content, &rows, now) {
            Ok((m, cs)) => {
                let ghost gm = m;
                let ghost gcs = cs;
                proof {
                    assert(rows@.map_values(|v: Vec<Element>| v@) == nested_selection(document@, "tr"@, "a"@).unwrap());
                }
                store.persist_module(m, cs);
                proof {
                    assert(module_extracted(
                        Ok((gm, gcs)),
                        id@,
                        selection(document@, "h1"@).unwrap(),
                        selection(document@, "#contentlayoutleft b"@).unwrap(),
                        selection(document@, "#contentlayoutleft tr.tbdata"@).unwrap(),
                        nested_selection(document@, "tr"@, "a"@).unwrap(),
                        now,
                    ));
                }
                Ok(())
            },
            Err(f) => Err(CrawlError::Extraction { url, field: f }),
        }
    }

    /// The identifier of the synthetic module that collects the courses of a registration page
    /// listed before any module header: the URL-safe base64 text `TUCANSCHEISS`, decoded.
    pub fn placeholder_module_id() -> (r: Vec<u8>)
        ensures
            r@ == placeholder_bytes(),
    {
        match decode_url_safe("TUCANSCHEISS") {
            Some(v) => v,
            None => Vec::new(),
        }
    }

    /// Answers from the cache when the registration node `id` is complete there, and asks for
    /// its page otherwise.
    pub fn registration_step(&self, store: &CacheStore, id: &[u8]) -> (r: Step)
        requires
            store.wf(),
        ensures
            r is Cached <==> done_row(store.module_menus@, id@),
            r matches Step::Fetch { url } ==> url@ == address(
                ProgramKind::Registration,
                id@,
                session_digits(Some(self.session.session_nr)),
            ),
    {
        if store.cached_registration(id).is_some() {
            Step::Cached
        } else {
            Step::Fetch { url: self.url_of(ProgramKind::Registration, id) }
        }
    }

    /// Extracts the registration page `document` of the node `id` and persists the node
    /// (complete), its child nodes, and the modules and courses it lists with the links between
    /// them. It succeeds exactly when the page is no timeout page, has a title and exactly one
    /// of the two kinds of list, and every module header is readable; otherwise it fails with
    /// `SessionExpired` or with the missing part, and the cache is untouched.
    pub fn fetch_registration(&self, store: &mut CacheStore, id: &[u8], document: &str, now: i64) -> (r: Result<(), CrawlError>)
        requires
            old(store).wf(),
        ensures
            final(store).wf(),
            outcome(r, document@, registration_page_missing(document@), self.page_url(ProgramKind::Registration, id@)),
            r is Err ==> *final(store) == *old(store),
            r is Ok ==> final(store).keeps_except(&*old(store), set![Table::ModuleMenus, Table::Modules, Table::Courses, Table::ModuleMenuModules, Table::ModuleCourses]),
            r is Ok ==> done_row(final(store).module_menus@, id@) && final(store).grows_from(&*old(store)),
            r is Ok ==> exists|p: RegistrationPage| {
                &&& #[trigger] registration_extracted(
                    Ok(p),
                    id@,
                    selection(document@, "h2 a"@).unwrap(),
                    selection(document@, "table.tbcoursestatus"@).unwrap().len() as int,
                    selection(document@, "#contentSpacer_IE ul"@).unwrap().len() as int,
                    selection(document@, "table.tbcoursestatus strong a[href]"@).unwrap(),
                    selection(document@, "#contentSpacer_IE ul a[href]"@).unwrap(),
                    placeholder_bytes(),
                    now,
                )
                &&& final(store).module_menus@ == upserted_all(upserted(old(store).module_menus@, p.menu), p.submenus@)
                &&& forall|k: Seq<u8>| (#[trigger] row_of(old(store).module_menus@, k) matches Some(o) && o.parent is Some) ==> (row_of(
                    final(store).module_menus@,
                    k,
                ) matches Some(n) && n.parent == row_of(old(store).module_menus@, k).unwrap().parent)
                &&& final(store).modules@ == inserted_absent(old(store).modules@, p.modules@)
                &&& final(store).courses@ == inserted_absent(old(store).courses@, p.courses@)
                &&& has_links_to(final(store).module_menu_modules@, id@, p.modules@)
                &&& forall|j: int| 0 <= j < p.module_courses@.len() ==> has_link(
                    final(store).module_courses@,
                    #[trigger] p.module_courses@[j].ends(),
                )
            },
    {
        let url = self.url_of(ProgramKind::Registration, id);
        let h1 = match select(document, "h1") {
            Some(h) => h,
            None => {
                return Err(CrawlError::Extraction { url, field: Field::Heading });
            },
        };
        if Self::is_timeout(&h1) {
            return Err(CrawlError::SessionExpired);
        }
        let titles = select(document, "h2 a");
        let module_lists = select(document, "table.tbcoursestatus");
        let submenu_lists = select(document, "#contentSpacer_IE ul");
        let tokens = select(document, "table.tbcoursestatus strong a[href]");
        let subs = select(document, "#contentSpacer_IE ul a[href]");
        let (titles, module_lists, submenu_lists, tokens, subs) = match (titles, module_lists, submenu_lists, tokens, subs) {
            (Some(a), Some(b), Some(c), Some(d), Some(e)) => (a, b, c, d, e),
            _ => {
                return Err(CrawlError::Extraction { url, field: Field::MenuKind });
            },
        };
        let placeholder = Self::placeholder_module_id();
        match registration_from_parts(id, &titles, module_lists.len(), submenu_lists.len(), &tokens, &subs, &placeholder, now) {
            Ok(p) => {
                let ghost gp = p;
                let RegistrationPage { menu, submenus, modules, courses, module_courses } = p;
                store.persist_registration(menu, submenus, modules, courses, module_courses);
                proof {
                    assert forall|k: Seq<u8>| (#[trigger] row_of(old(store).module_menus@, k) matches Some(o) && o.parent is Some) implies (row_of(
                        store.module_menus@,
                        k,
                    ) matches Some(n) && n.parent == row_of(old(store).module_menus@, k).unwrap().parent) by {
                        crate::cache::lemma_registration_keeps_parents(old(store).module_menus@, gp.menu, gp.submenus@, k);
                    }
                    assert(registration_extracted(
                        Ok(gp),
                        id@,
                        selection(document@, "h2 a"@).unwrap(),
                        selection(document@, "table.tbcoursestatus"@).unwrap().len() as int,
                        selection(document@, "#contentSpacer_IE ul"@).unwrap().len() as int,
                        selection(document@, "table.tbcoursestatus strong a[href]"@).unwrap(),
                        selection(document@, "#contentSpacer_IE ul a[href]"@).unwrap(),
                        placeholder_bytes(),
                        now,
                    ));
                }
                Ok(())
            },
            Err(f) => Err(CrawlError::Extraction { url, field: f }),
        }
    }

    /// Answers from the cache when `id` is a complete course or course group there, and asks
    /// for its page otherwise.
    pub fn course_step(&self, store: &CacheStore, id: &[u8]) -> (r: Step)
        requires
            store.wf(),
        ensures
            r is Cached <==> (done_row(store.courses@, id@) || done_row(store.course_groups@, id@)),
            r matches Step::Fetch { url } ==> url@ == address(
                ProgramKind::CourseDetails,
                id@,
                session_digits(Some(self.session.session_nr)),
            ),
    {
        if store.cached_course(id).is_some() || store.cached_course_group(id).is_some() {
            Step::Cached
        } else {
            Step::Fetch { url: self.url_of(ProgramKind::CourseDetails, id) }
        }
    }

    /// Whether a page of the course-details kind shows a course group rather than a course:
    /// a group's page has a sub-heading right after the form's heading.
    pub fn is_course_group_page(document: &str) -> (r: Option<bool>)
        ensures
            r matches Some(b) ==> selection(document@, "form h1 + h2"@) matches Some(v) && b == (v.len() > 0),
            r is None ==> selection(document@, "form h1 + h2"@) is None,
    {
        match select(document, "form h1 + h2") {
            Some(v) => Some(v.len() > 0),
            None => None,
        }
    }

    /// Extracts the course page `document` of `id` and persists the course (complete), its
    /// groups (as stubs where not known yet) and its schedule entries, those of the table after
    /// the caption "Termine". It succeeds exactly when the page is no timeout page and has every
    /// part it needs; otherwise it fails with `SessionExpired` or with the missing part, and the
    /// cache is untouched.
    pub fn fetch_course(&self, store: &mut CacheStore, id: &[u8], document: &str, now: i64) -> (r: Result<(), CrawlError>)
        requires
            old(store).wf(),
        ensures
            final(store).wf(),
            outcome(r, document@, course_page_missing(document@), self.page_url(ProgramKind::CourseDetails, id@)),
            r is Err ==> *final(store) == *old(store),
            r is Ok ==> final(store).keeps_except(&*old(store), set![Table::Courses, Table::CourseGroups, Table::CourseEvents]),
            r is Ok ==> done_row(final(store).courses@, id@) && final(store).grows_from(&*old(store)),
            r is Ok ==> exists|c: Course, gs: Vec<CourseGroup>, es: Vec<CourseEvent>| {
                &&& #[trigger] course_record(
                    c,
                    id@,
                    selection(document@, "h1"@).unwrap(),
                    selection(document@, "#contentlayoutleft b"@).unwrap(),
                    selection(document@, "#contentlayoutleft td.tbdata"@).unwrap(),
                    now,
                )
                &&& #[trigger] groups_are(gs@, groups_upto(
                    nested_selection(document@, ".dl-ul-listview .listelement"@, ".img_arrowLeft"@).unwrap(),
                    nested_selection(document@, ".dl-ul-listview .listelement"@, ".dl-ul-li-headline strong"@).unwrap(),
                    nested_selection(document@, ".dl-ul-listview .listelement"@, ".img_arrowLeft"@).unwrap().len() as int,
                ).unwrap(), id@)
                &&& #[trigger] events_are(es@, page_events(selection(document@, "caption"@).unwrap()).unwrap(), id@)
                &&& final(store).courses@ == upserted(old(store).courses@, c)
                &&& final(store).course_groups@ == inserted_absent(old(store).course_groups@, gs@)
                &&& final(store).course_events@ == events_written(old(store).course_events@, es@)
            },
    {
        let url = self.url_of(ProgramKind::CourseDetails, id);
        let h1 = match select(document, "h1") {
            Some(h) => h,
            None => {
                return Err(CrawlError::Extraction { url, field: Field::Heading });
            },
        };
        if Self::is_timeout(&h1) {
            return Err(CrawlError::SessionExpired);
        }
        let parts = (
            select(document, "#contentlayoutleft b"),
            select(document, "#contentlayoutleft td.tbdata"),
            select(document, "caption"),
            select_nested(document, ".dl-ul-listview .listelement", ".img_arrowLeft"),
            select_nested(document, ".dl-ul-listview .listelement", ".dl-ul-li-headline strong"),
        );
        let (labels, content, captions, arrows, heads) = match parts {
            (Some(a), Some(b), Some(c), Some(f), Some(g)) => (a, b, c, f, g),
            _ => {
                return Err(CrawlError::Extraction { url, field: Field::Timetable });
            },
        };
        let course = match course_from_parts(id, &h1, &labels, &content, &captions, now) {
            Ok(c) => c,
            Err(f) => {
                return Err(CrawlError::Extraction { url, field: f });
            },
        };
        let events = match Self::events_of_page(id, &captions) {
            Ok(v) => v,
            Err(f) => {
                return Err(CrawlError::Extraction { url, field: f });
            },
        };
        let groups = match groups_from_parts(id, &arrows, &heads) {
            Ok(v) => v,
            Err(f) => {
                return Err(CrawlError::Extraction { url, field: f });
            },
        };
        let ghost gc = course;
        let ghost gg = groups;
        let ghost ge = events;
        proof {
            let av = nested_selection(document@, ".dl-ul-listview .listelement"@, ".img_arrowLeft"@).unwrap();
            let hv = nested_selection(document@, ".dl-ul-listview .listelement"@, ".dl-ul-li-headline strong"@).unwrap();
            assert(arrows@.map_values(|v: Vec<Element>| v@) == av);
            assert(heads@.map_values(|v: Vec<Element>| v@) == hv);
            assert(groups_are(gg@, groups_upto(av, hv, av.len() as int).unwrap(), id@));
            assert(events_are(ge@, page_events(selection(document@, "caption"@).unwrap()).unwrap(), id@));
        }
        store.persist_course(course, groups, events);
        assert(course_record(
            gc,
            id@,
            selection(document@, "h1"@).unwrap(),
            selection(document@, "#contentlayoutleft b"@).unwrap(),
            selection(document@, "#contentlayoutleft td.tbdata"@).unwrap(),
            now,
        ));
        Ok(())
    }

    /// The schedule entries of the owner `owner` in the table after the caption "Termine"
    /// among `captions`.
    pub fn events_of_page(owner: &[u8], captions: &Vec<Element>) -> (r: Result<Vec<CourseEvent>, Field>)
        ensures
            r matches Err(f) ==> page_events(captions@) == Err::<Seq<(ScheduleTime, Seq<char>, Seq<char>)>, Field>(f),
            r matches Ok(v) ==> page_events(captions@) matches Ok(es) && events_are(v@, es, owner@),
    {
        let t = match timetable_of(captions) {
            Some(t) => t,
            None => {
                return Err(Field::Timetable);
            },
        };
        let rows = select_nested(t.as_str(), "tr:not(.rw-hide)", "td");
        let rooms = select_nested(t.as_str(), "tr:not(.rw-hide)", "td:nth-child(5) a");
        match (rows, rooms) {
            (Some(rows), Some(rooms)) => {
                proof {
                    assert(rows@.map_values(|v: Vec<Element>| v@) == nested_selection(t@, "tr:not(.rw-hide)"@, "td"@).unwrap());
                    assert(rooms@.map_values(|v: Vec<Element>| v@) == nested_selection(t@, "tr:not(.rw-hide)"@, "td:nth-child(5) a"@).unwrap());
                }
                events_from_rows(owner, &rows, &rooms)
            },
            _ => Err(Field::Timetable),
        }
    }

    /// Extracts the course group page `document` of `id` and persists the group (complete), the
    /// course it belongs to (as a stub where not known yet) and the group's schedule entries.
    /// It succeeds exactly when the page is no timeout page and has every part it needs;
    /// otherwise it fails with `SessionExpired` or with the missing part, and the cache is
    /// untouched.
    pub fn fetch_course_group(&self, store: &mut CacheStore, id: &[u8], document: &str, now: i64) -> (r: Result<(), CrawlError>)
        requires
            old(store).wf(),
        ensures
            final(store).wf(),
            outcome(r, document@, group_page_missing(document@), self.page_url(ProgramKind::CourseDetails, id@)),
            r is Err ==> *final(store) == *old(store),
            r is Ok ==> final(store).keeps_except(&*old(store), set![Table::CourseGroups, Table::Courses, Table::CourseGroupEvents]),
            r is Ok ==> done_row(final(store).course_groups@, id@) && final(store).grows_from(&*old(store)),
            r is Ok ==> exists|g: CourseGroup, stub: Course, es: Vec<CourseEvent>| {
                let arrows = selection(document@, ".img_arrowLeft"@).unwrap();
                &&& #[trigger] g.tucan_id@ == id@
                &&& g.course@ == link_target(arrows[crate::extract::first_html(arrows, crate::extract::plenum_text())], ProgramKind::CourseDetails).unwrap()
                &&& g.title@ == selection(document@, ".dl-ul-listview .tbsubhead .dl-ul-li-headline strong"@).unwrap()[0].inner_html@
                &&& g.done
                &&& #[trigger] stub.tucan_id@ == g.course@ && !stub.done && stub.title@.len() == 0 && stub.tucan_last_checked == now
                &&& #[trigger] events_are(es@, page_events(selection(document@, "caption"@).unwrap()).unwrap(), id@)
                &&& final(store).course_groups@ == upserted(old(store).course_groups@, g)
                &&& final(store).courses@ == inserted_absent(old(store).courses@, seq![stub])
                &&& final(store).course_group_events@ == events_written(old(store).course_group_events@, es@)
            },
    {
        let url = self.url_of(ProgramKind::CourseDetails, id);
        let h1 = match select(document, "h1") {
            Some(h) => h,
            None => {
                return Err(CrawlError::Extraction { url, field: Field::Heading });
            },
        };
        if Self::is_timeout(&h1) {
            return Err(CrawlError::SessionExpired);
        }
        let parts = (
            select(document, ".img_arrowLeft"),
            select(document, ".dl-ul-listview .tbsubhead .dl-ul-li-headline strong"),
            select(document, "caption"),
        );
        let (arrows, heads, captions) = match parts {
            (Some(a), Some(b), Some(c)) => (a, b, c),
            _ => {
                return Err(CrawlError::Extraction { url, field: Field::Plenum });
            },
        };
        let group = match group_from_parts(id, &arrows, &heads) {
            Ok(g) => g,
            Err(f) => {
                return Err(CrawlError::Extraction { url, field: f });
            },
        };
        let events = match Self::events_of_page(id, &captions) {
            Ok(v) => v,
            Err(f) => {
                return Err(CrawlError::Extraction { url, field: f });
            },
        };
        let course = Course {
            tucan_id: crate::text::copy_bytes(&group.course),
            tucan_last_checked: now,
            title: String::new(),
            course_id: String::new(),
            sws: 0,
            content: String::new(),
            done: false,
        };
        let ghost gg = group;
        let ghost gs = course;
        let ghost ge = events;
        store.persist_course_group(group, course, events);
        assert(gg.tucan_id@ == id@);
        Ok(())
    }

    /// Extracts a page of the course-details kind as a course group where it has the group
    /// marker, and as a course otherwise, and persists it; `Ok(true)` where it was a course
    /// group. It succeeds exactly when the page read that way has every part it needs.
    pub fn fetch_course_or_course_group(&self, store: &mut CacheStore, id: &[u8], document: &str, now: i64) -> (r: Result<bool, CrawlError>)
        requires
            old(store).wf(),
        ensures
            final(store).wf(),
            outcome(r, document@, course_or_group_page_missing(document@), self.page_url(ProgramKind::CourseDetails, id@)),
            r is Err ==> *final(store) == *old(store),
            r is Ok ==> final(store).keeps_except(&*old(store), set![Table::Courses, Table::CourseGroups, Table::CourseEvents, Table::CourseGroupEvents]),
            r matches Ok(g) ==> (selection(document@, "form h1 + h2"@) matches Some(v) && g == (v.len() > 0)),
            r == Ok::<bool, CrawlError>(true) ==> done_row(final(store).course_groups@, id@),
            r == Ok::<bool, CrawlError>(false) ==> done_row(final(store).courses@, id@),
            r is Ok ==> final(store).grows_from(&*old(store)),
    {
        if let Some(h1) = select(document, "h1") {
            if Self::is_timeout(&h1) {
                return Err(CrawlError::SessionExpired);
            }
        }
        match Self::is_course_group_page(document) {
            Some(true) => {
                match self.fetch_course_group(store, id, document, now) {
                    Ok(()) => Ok(true),
                    Err(e) => Err(e),
                }
            },
            Some(false) => {
                match self.fetch_course(store, id, document, now) {
                    Ok(()) => Ok(false),
                    Err(e) => Err(e),
                }
            },
            None => Err(CrawlError::Extraction { url: self.url_of(ProgramKind::CourseDetails, id), field: Field::Heading }),
        }
    }

    /// The cached course `id`, or else the cached course group `id`, where complete, with what
    /// the cache holds for it (as `cached_course` and `cached_course_group` give it).
    pub fn cached_course_or_course_group<'a>(store: &'a CacheStore, id: &[u8]) -> (r: Option<CourseOrCourseGroup<'a>>)
        requires
            store.wf(),
        ensures
            r is Some <==> (done_row(store.courses@, id@) || done_row(store.course_groups@, id@)),
            r matches Some(CourseOrCourseGroup::Course(_)) <==> done_row(store.courses@, id@),
            r matches Some(CourseOrCourseGroup::Course((c, gs, es))) ==> {
                &&& row_of(store.courses@, id@) == Some(*c)
                &&& gs@.map_values(|g: &CourseGroup| *g) == kept(store.course_groups@, group_of(id@))
                &&& es@.map_values(|e: &CourseEvent| *e) == kept(store.course_events@, event_of(id@))
            },
            r matches Some(CourseOrCourseGroup::CourseGroup((g, es))) ==> {
                &&& row_of(store.course_groups@, id@) == Some(*g)
                &&& es@.map_values(|e: &CourseEvent| *e) == kept(store.course_group_events@, event_of(id@))
            },
    {
        match store.cached_course(id) {
            Some(c) => Some(CourseOrCourseGroup::Course(c)),
            None => match store.cached_course_group(id) {
                Some(g) => Some(CourseOrCourseGroup::CourseGroup(g)),
                None => None,
            },
        }
    }

    /// Answers from the cache when the exam `id` is complete there, and asks for its page otherwise.
    pub fn exam_step(&self, store: &CacheStore, id: &[u8]) -> (r: Step)
        requires
            store.wf(),
        ensures
            r is Cached <==> done_row(store.exams@, id@),
            r matches Step::Fetch { url } ==> url@ == address(
                ProgramKind::ExamDetails,
                id@,
                session_digits(Some(self.session.session_nr)),
            ),
    {
        if store.cached_exam_details(id).is_some() {
            Step::Cached
        } else {
            Step::Fetch { url: self.url_of(ProgramKind::ExamDetails, id) }
        }
    }

    /// Extracts the exam page `document` of `id` and persists the exam (complete). It succeeds
    /// exactly when the page is no timeout page and has every caption it needs with readable
    /// windows; otherwise it fails with `SessionExpired` or with the missing part, and the cache
    /// is untouched.
    pub fn fetch_exam_details(&self, store: &mut CacheStore, id: &[u8], document: &str) -> (r: Result<(), CrawlError>)
        requires
            old(store).wf(),
        ensures
            final(store).wf(),
            outcome(r, document@, exam_page_missing(document@), self.page_url(ProgramKind::ExamDetails, id@)),
            r is Err ==> *final(store) == *old(store),
            r is Ok ==> final(store).keeps_except(&*old(store), set![Table::Exams]),
            r is Ok ==> done_row(final(store).exams@, id@) && final(store).grows_from(&*old(store)),
            r is Ok ==> exists|e: Exam|
                #[trigger] exam_record(e, id@, selection(document@, "table td b"@).unwrap())
                    && final(store).exams@ == upserted(old(store).exams@, e),
    {
        let url = self.url_of(ProgramKind::ExamDetails, id);
        if let Some(h1) = select(document, "h1") {
            if Self::is_timeout(&h1) {
                return Err(CrawlError::SessionExpired);
            }
        }
        let labels = match select(document, "table td b") {
            Some(v) => v,
            None => {
                return Err(CrawlError::Extraction { url, field: Field::Label });
            },
        };
        match exam_from_parts(id, &labels) {
            Ok(e) => {
                let ghost ge = e;
                store.persist_exam(e);
                proof {
                    assert(exam_record(ge, id@, selection(document@, "table td b"@).unwrap()));
                }
                Ok(())
            },
            Err(f) => Err(CrawlError::Extraction { url, field: f }),
        }
    }

    /// Reads the entities of kind `kind` that the listing page `page` links to (the links of
    /// its table rows). It fails with `SessionExpired` on the timeout page, and with the
    /// page's address where the links cannot be selected.
    pub fn listing(&self, document: &str, page: ProgramKind, kind: ProgramKind) -> (r: Result<Vec<Vec<u8>>, CrawlError>)
        ensures
            outcome(r, document@, listing_missing(document@), self.page_url(page, Seq::empty())),
            r matches Ok(ids) ==> selection(document@, "tbody tr a"@) matches Some(links) && ids@.map_values(
                |v: Vec<u8>| v@,
            ) == listing_ids(links, kind),
    {
        if let Some(h1) = select(document, "h1") {
            if Self::is_timeout(&h1) {
                return Err(CrawlError::SessionExpired);
            }
        }
        match select(document, "tbody tr a") {
            Some(links) => Ok(ids_from_links(&links, kind)),
            None => Err(CrawlError::Extraction { url: self.url_of(page, &[]), field: Field::Link }),
        }
    }

    /// Answers from the cache when the user's modules have been fetched as a whole, and asks
    /// for the listing otherwise.
    pub fn my_modules_step(&self, store: &CacheStore) -> (r: Step)
        requires
            store.wf(),
        ensures
            r is Cached <==> (crate::cache::marks_of(store.users@, self.session.matriculation_number) matches Some(mk)
                && mk.user_modules_last_checked is Some),
    {
        if store.cached_my_modules(self.session.matriculation_number).is_some() {
            Step::Cached
        } else {
            Step::Fetch { url: self.url_of(ProgramKind::MyModules, &[]) }
        }
    }

    /// Answers from the cache when the user's exams have been fetched as a whole, and asks for
    /// the listing otherwise.
    pub fn my_exams_step(&self, store: &CacheStore) -> (r: Step)
        requires
            store.wf(),
        ensures
            r is Cached <==> (crate::cache::marks_of(store.users@, self.session.matriculation_number) matches Some(mk)
                && mk.user_exams_last_checked is Some),
    {
        if store.cached_my_exams(self.session.matriculation_number).is_some() {
            Step::Cached
        } else {
            Step::Fetch { url: self.url_of(ProgramKind::MyExams, &[]) }
        }
    }

    /// Splits resolved entries of the user's course listing into courses and course groups,
    /// by what the cache holds complete for each; an entry that is neither is left out.
    pub fn partition_courses(store: &CacheStore, ids: &Vec<Vec<u8>>) -> (r: (Vec<Vec<u8>>, Vec<Vec<u8>>))
        requires
            store.wf(),
        ensures
            (r.0@.map_values(|v: Vec<u8>| v@), r.1@.map_values(|v: Vec<u8>| v@)) == split_courses(
                store.courses@,
                store.course_groups@,
                ids@.map_values(|v: Vec<u8>| v@),
            ),
    {
        let ghost iv = ids@.map_values(|v: Vec<u8>| v@);
        let mut courses: Vec<Vec<u8>> = Vec::new();
        let mut groups: Vec<Vec<u8>> = Vec::new();
        let mut i: usize = 0;
        while i < ids.len()
            invariant
                i <= ids@.len(),
                store.wf(),
                iv == ids@.map_values(|v: Vec<u8>| v@),
                (courses@.map_values(|v: Vec<u8>| v@), groups@.map_values(|v: Vec<u8>| v@)) == split_courses(
                    store.courses@,
                    store.course_groups@,
                    iv.subrange(0, i as int),
                ),
            decreases ids@.len() - i,
        {
            assert(iv.subrange(0, i + 1).drop_last() =~= iv.subrange(0, i as int));
            let ghost c0 = courses@;
            let ghost g0 = groups@;
            if store.cached_course(&ids[i]).is_some() {
                courses.push(crate::text::copy_bytes(&ids[i]));
                assert(courses@.map_values(|v: Vec<u8>| v@) =~= c0.map_values(|v: Vec<u8>| v@).push(iv[i as int]));
            } else if store.cached_course_group(&ids[i]).is_some() {
                groups.push(crate::text::copy_bytes(&ids[i]));
                assert(groups@.map_values(|v: Vec<u8>| v@) =~= g0.map_values(|v: Vec<u8>| v@).push(iv[i as int]));
            }
            i = i + 1;
        }
        assert(iv.subrange(0, iv.len() as int) =~= iv);
        (courses, groups)
    }

    /// Extracts the user's exam listing `document` and persists its exams, the modules and
    /// courses they belong to (all as stubs where not known yet), the links between them, the
    /// user's entries and the time of the fetch. It succeeds exactly when the page is no
    /// timeout page and every row is readable; otherwise it fails with `SessionExpired` or with
    /// the missing part, and the cache is untouched.
    pub fn fetch_my_exams(&self, store: &mut CacheStore, document: &str, now: i64) -> (r: Result<(), CrawlError>)
        requires
            old(store).wf(),
        ensures
            final(store).wf(),
            outcome(r, document@, exam_listing_missing(document@), self.page_url(ProgramKind::MyExams, Seq::empty())),
            r is Err ==> *final(store) == *old(store),
            r is Ok ==> final(store).keeps_except(&*old(store), set![Table::Exams, Table::Modules, Table::Courses, Table::ModuleExams, Table::CourseExams, Table::UserExams, Table::Users]),
            r is Ok ==> final(store).grows_from(&*old(store)) && (crate::cache::marks_of(
                final(store).users@,
                self.session.matriculation_number,
            ) matches Some(mk) && mk.user_exams_last_checked == Some(now)),
            r is Ok ==> exists|p: ExamListing| {
                &&& #[trigger] final(store).exams@ == inserted_absent(old(store).exams@, p.exams@)
                &&& final(store).modules@ == inserted_absent(old(store).modules@, p.modules@)
                &&& final(store).courses@ == inserted_absent(old(store).courses@, p.courses@)
                &&& p.exams@.len() == exam_listing_rows(document@).unwrap().len()
                &&& forall|j: int| 0 <= j < p.exams@.len() ==> exam_listed(p, j, #[trigger] exam_listing_rows(document@).unwrap()[j], now)
                &&& forall|j: int| 0 <= j < p.exams@.len() ==> crate::cache::has_entry(
                    final(store).user_exams@,
                    self.session.matriculation_number,
                    #[trigger] p.exams@[j].key(),
                )
                &&& forall|j: int| 0 <= j < p.module_exams@.len() ==> has_link(final(store).module_exams@, #[trigger] p.module_exams@[j].ends())
                &&& forall|j: int| 0 <= j < p.course_exams@.len() ==> has_link(final(store).course_exams@, #[trigger] p.course_exams@[j].ends())
            },
    {
        let url = self.url_of(ProgramKind::MyExams, &[]);
        if let Some(h1) = select(document, "h1") {
            if Self::is_timeout(&h1) {
                return Err(CrawlError::SessionExpired);
            }
        }
        let parts = (
            select_nested(document, "table tbody tr", "td"),
            select_nested(document, "table tbody tr", "td:nth-child(2) a"),
            select_nested(document, "table tbody tr", "td:nth-child(3) a"),
            select_nested(document, "table tbody tr", "td:nth-child(4) a"),
        );
        let (tds, owners, names, dates) = match parts {
            (Some(a), Some(b), Some(c), Some(d)) => (a, b, c, d),
            _ => {
                return Err(CrawlError::Extraction { url, field: Field::ExamColumns });
            },
        };
        proof {
            assert(tds@.map_values(|v: Vec<Element>| v@) == nested_selection(document@, "table tbody tr"@, "td"@).unwrap());
            assert(owners@.map_values(|v: Vec<Element>| v@) == nested_selection(document@, "table tbody tr"@, "td:nth-child(2) a"@).unwrap());
            assert(names@.map_values(|v: Vec<Element>| v@) == nested_selection(document@, "table tbody tr"@, "td:nth-child(3) a"@).unwrap());
            assert(dates@.map_values(|v: Vec<Element>| v@) == nested_selection(document@, "table tbody tr"@, "td:nth-child(4) a"@).unwrap());
        }
        match exams_from_rows(&tds, &owners, &names, &dates, now) {
            Ok(p) => {
                let ghost gp = p;
                let ExamListing { exams, modules, courses, module_exams, course_exams } = p;
                store.persist_my_exams(self.session.matriculation_number, exams, modules, courses, module_exams, course_exams, now);
                assert(store.exams@ == inserted_absent(old(store).exams@, gp.exams@));
                Ok(())
            },
            Err(f) => Err(CrawlError::Extraction { url, field: f }),
        }
    }

    /// The matriculation number on the personal data page. It fails with `SessionExpired` on the
    /// timeout page, and with the page's address where the number is missing or unreadable.
    pub fn personal_data(&self, document: &str) -> (r: Result<i32, CrawlError>)
        ensures
            outcome(r, document@, personal_data_missing(document@), self.page_url(ProgramKind::PersonalAddress, Seq::empty())),
            r matches Ok(n) ==> matriculation_number_of(document@) == Some(n as int),
    {
        let url = self.url_of(ProgramKind::PersonalAddress, &[]);
        if let Some(h1) = select(document, "h1") {
            if Self::is_timeout(&h1) {
                return Err(CrawlError::SessionExpired);
            }
        }
        let cells = match select(document, "td[name=\"matriculationNumber\"]") {
            Some(c) => c,
            None => {
                return Err(CrawlError::Extraction { url, field: Field::Label });
            },
        };
        if cells.len() == 0 {
            return Err(CrawlError::Extraction { url, field: Field::Label });
        }
        let t = crate::text::chars_of(crate::text::trim(cells[0].inner_html.as_str()).as_str());
        match crate::text::parse_int(&t, 2147483647) {
            Some(v) => Ok(v as i32),
            None => Err(CrawlError::Extraction { url, field: Field::Label }),
        }
    }

    /// The root of the registration tree, as named by the last title link of the start page
    /// of the registration (`done` false, no parent). It fails with `SessionExpired` on the
    /// timeout page, and with the page's address where the title link or its target is missing.
    pub fn root_registration(&self, document: &str, now: i64) -> (r: Result<ModuleMenu, CrawlError>)
        ensures
            outcome(r, document@, root_registration_missing(document@), self.page_url(ProgramKind::RootRegistration, Seq::empty())),
            r matches Ok(m) ==> selection(document@, "h2 a"@) matches Some(titles) && last_title(titles) matches Some(t)
                && link_target(titles[t], ProgramKind::Registration) == Some(m.tucan_id@) && m.name@ == titles[t].inner_html@
                && !m.done && m.parent is None && m.tucan_last_checked == now,
    {
        let url = self.url_of(ProgramKind::RootRegistration, &[]);
        if let Some(h1) = select(document, "h1") {
            if Self::is_timeout(&h1) {
                return Err(CrawlError::SessionExpired);
            }
        }
        let titles = match select(document, "h2 a") {
            Some(t) => t,
            None => {
                return Err(CrawlError::Extraction { url, field: Field::MenuTitle });
            },
        };
        let t = match crate::extract::last_title_of(&titles) {
            Some(t) => t,
            None => {
                return Err(CrawlError::Extraction { url, field: Field::MenuTitle });
            },
        };
        match link_target_of(&titles[t], ProgramKind::Registration) {
            Some(id) => Ok(ModuleMenu {
                tucan_id: id,
                tucan_last_checked: now,
                name: crate::text::copy_string(&titles[t].inner_html),
                done: false,
                parent: None,
            }),
            None => Err(CrawlError::Extraction { url, field: Field::Link }),
        }
    }

    /// Ends the resolution of the user's modules: where resolving any of the listed modules
    /// failed, the position of the first failure is the outcome and nothing is written
    /// (partial collections are not recorded); otherwise the modules are recorded as the
    /// user's, with the time `now`.
    pub fn complete_my_modules(
        &self,
        store: &mut CacheStore,
        ids: Vec<Vec<u8>>,
        results: &Vec<Result<(), CrawlError>>,
        now: i64,
    ) -> (r: Option<usize>)
        requires
            old(store).wf(),
        ensures
            final(store).wf(),
            r is None ==> final(store).keeps_except(&*old(store), set![Table::UserModules, Table::Users]),
            r matches Some(j) ==> j < results@.len() && results@[j as int] is Err && *final(store) == *old(store)
                && forall|k: int| 0 <= k < j ==> #[trigger] results@[k] is Ok,
            r is None ==> forall|k: int| 0 <= k < results@.len() ==> #[trigger] results@[k] is Ok,
            r is None ==> (crate::cache::marks_of(final(store).users@, self.session.matriculation_number) matches Some(mk)
                && mk.user_modules_last_checked == Some(now)),
            r is None ==> forall|j: int| 0 <= j < ids@.len() ==> crate::cache::has_entry(
                final(store).user_modules@,
                self.session.matriculation_number,
                #[trigger] ids@[j]@,
            ),
    {
        let mut i: usize = 0;
        while i < results.len()
            invariant
                i <= results@.len(),
                forall|k: int| 0 <= k < i ==> #[trigger] results@[k] is Ok,
                old(store).wf(),
                *store == *old(store),
            decreases results@.len() - i,
        {
            let failed = match &results[i] {
                Ok(()) => false,
                Err(_) => true,
            };
            if failed {
                return Some(i);
            }
            i = i + 1;
        }
        store.persist_my_modules(self.session.matriculation_number, ids, now);
        None
    }

    /// Ends the resolution of the user's courses: where resolving any listed entry failed, the
    /// position of the first failure is the outcome and nothing is written; otherwise the
    /// entries are split into courses and course groups by what the cache holds complete, and
    /// recorded as the user's, with the time `now`.
    pub fn complete_my_courses(
        &self,
        store: &mut CacheStore,
        ids: &Vec<Vec<u8>>,
        results: &Vec<Result<bool, CrawlError>>,
        now: i64,
    ) -> (r: Option<usize>)
        requires
            old(store).wf(),
        ensures
            final(store).wf(),
            r is None ==> final(store).keeps_except(&*old(store), set![Table::UserCourses, Table::UserCourseGroups, Table::Users]),
            r matches Some(j) ==> j < results@.len() && results@[j as int] is Err && *final(store) == *old(store)
                && forall|k: int| 0 <= k < j ==> #[trigger] results@[k] is Ok,
            r is None ==> forall|k: int| 0 <= k < results@.len() ==> #[trigger] results@[k] is Ok,
            r is None ==> (crate::cache::marks_of(final(store).users@, self.session.matriculation_number) matches Some(mk)
                && mk.user_courses_last_checked == Some(now)),
            r is None ==> {
                let split = split_courses(old(store).courses@, old(store).course_groups@, ids@.map_values(|v: Vec<u8>| v@));
                &&& forall|j: int| 0 <= j < split.0.len() ==> crate::cache::has_entry(
                    final(store).user_courses@,
                    self.session.matriculation_number,
                    #[trigger] split.0[j],
                )
                &&& forall|j: int| 0 <= j < split.1.len() ==> crate::cache::has_entry(
                    final(store).user_course_groups@,
                    self.session.matriculation_number,
                    #[trigger] split.1[j],
                )
            },
    {
        let mut i: usize = 0;
        while i < results.len()
            invariant
                i <= results@.len(),
                forall|k: int| 0 <= k < i ==> #[trigger] results@[k] is Ok,
                old(store).wf(),
                *store == *old(store),
            decreases results@.len() - i,
        {
            let failed = match &results[i] {
                Ok(_) => false,
                Err(_) => true,
            };
            if failed {
                return Some(i);
            }
            i = i + 1;
        }
        let (courses, groups) = Self::partition_courses(store, ids);
        let ghost cv = courses@;
        let ghost gv = groups@;
        store.persist_my_courses(self.session.matriculation_number, courses, groups, now);
        proof {
            let split = split_courses(old(store).courses@, old(store).course_groups@, ids@.map_values(|v: Vec<u8>| v@));
            assert forall|j: int| 0 <= j < split.0.len() implies crate::cache::has_entry(
                store.user_courses@,
                self.session.matriculation_number,
                #[trigger] split.0[j],
            ) by {
                assert(split.0[j] == cv.map_values(|v: Vec<u8>| v@)[j]);
                assert(split.0[j] == cv[j]@);
            }
            assert forall|j: int| 0 <= j < split.1.len() implies crate::cache::has_entry(
                store.user_course_groups@,
                self.session.matriculation_number,
                #[trigger] split.1[j],
            ) by {
                assert(split.1[j] == gv.map_values(|v: Vec<u8>| v@)[j]);
                assert(split.1[j] == gv[j]@);
            }
        }
        None
    }
}

/// The entries of a course listing that the cache holds as complete courses, and those that
/// it holds as complete course groups (and not as courses), in order.
pub open spec fn split_courses(courses: Seq<Course>, groups: Seq<CourseGroup>, ids: Seq<Seq<u8>>) -> (Seq<Seq<u8>>, Seq<Seq<u8>>)
    decreases ids.len(),
{
    if ids.len() == 0 {
        (Seq::empty(), Seq::empty())
    } else {
        let prev = split_courses(courses, groups, ids.drop_last());
        if done_row(courses, ids.last()) {
            (prev.0.push(ids.last()), prev.1)
        } else if done_row(groups, ids.last()) {
            (prev.0, prev.1.push(ids.last()))
        } else {
            prev
        }
    }
}

/// Resolving an entity twice fetches nothing the second time: once a fetch has made the row
/// of `id` complete (as `fetch_module` promises on success), the next step for `id`, in that
/// cache state or in any later one that grows from it, is to answer from the cache.
pub proof fn lemma_second_resolution_is_cached(after_fetch: &CacheStore, later: &CacheStore, id: Seq<u8>)
    requires
        after_fetch.wf(),
        later.wf(),
        done_row(after_fetch.modules@, id),
        later.grows_from(after_fetch),
    ensures
        done_row(later.modules@, id),
{
    crate::cache::lemma_done_is_permanent(after_fetch, later, later, id);
}

} // verus!
