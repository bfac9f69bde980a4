use tucant::cache::CacheStore;
use tucant::codec::{decode, decode_expecting, encode, DecodeError, ProgramKind};
use tucant::crawl::{CrawlError, Step, TucanSession, TucanUser};
use tucant::datetime::{parse_datetime, DateTime, DateTimeError};
use tucant::extract::Field;
use tucant::models::{Course, Module, ModuleMenu};
use tucant::store::{insert_absent, upsert};

fn user() -> TucanUser {
    TucanUser {
        session: TucanSession { matriculation_number: 1234567, session_nr: 424242, session_id: String::from("abc") },
    }
}

fn link(kind: &str, hex: &str) -> String {
    format!("/scripts/mgrqispi.dll?APPNAME=CampusNet&amp;PRGNAME={}&amp;ARGUMENTS=-N424242,-A{}", kind, hex)
}

fn module_page() -> String {
    format!(
        "<html><body><h1>MOD-101&nbsp;Intro to Systems</h1><div id=\"contentlayoutleft\"><table>\
         <tr class=\"tbdata\"><td>About systems</td></tr></table><p><b>Credits: </b>6,0</p>\
         <table><tr><td><a name=\"eventLink\" href=\"#\">C-1</a></td><td><a href=\"#\">Course One</a></td><td><a href=\"{}\">more</a></td></tr>\
         <tr><td><a name=\"eventLink\" href=\"#\">C-2</a></td><td><a href=\"#\">Course Two</a></td><td><a href=\"{}\">more</a></td></tr></table>\
         </div></body></html>",
        link("COURSEDETAILS", "b1"),
        link("COURSEDETAILS", "b2")
    )
}

fn stub_module(id: Vec<u8>, title: &str) -> Module {
    Module {
        tucan_id: id,
        tucan_last_checked: 1,
        title: title.to_string(),
        module_id: String::new(),
        credits: None,
        content: String::new(),
        done: false,
    }
}

#[test]
fn module_resolution_cold_cache() {
    let user = user();
    let mut store = CacheStore::new();
    let id = vec![0xA1u8];
    match user.module_step(&store, &id) {
        Step::Fetch { url } => assert!(url.contains("PRGNAME=MODULEDETAILS") && url.ends_with(",-Aa1")),
        Step::Cached => panic!("an empty cache cannot answer"),
    }
    user.fetch_module(&mut store, &id, &module_page(), 100).unwrap();
    let (module, courses) = store.cached_module(&id).unwrap();
    assert_eq!(module.tucan_id, vec![0xA1]);
    assert_eq!(module.title, "Intro to Systems");
    assert_eq!(module.module_id, "MOD-101");
    assert_eq!(module.credits, Some(6));
    assert!(module.done);
    assert_eq!(courses.len(), 2);
    assert_eq!(courses[0].tucan_id, vec![0xB1]);
    assert_eq!(courses[1].tucan_id, vec![0xB2]);
    assert_eq!(courses[0].title, "Course One");
    assert!(!courses[0].done && !courses[1].done);
    assert!(matches!(user.module_step(&store, &id), Step::Cached));
}

#[test]
fn resolving_twice_fetches_nothing() {
    let user = user();
    let mut store = CacheStore::new();
    let id = vec![0xA1u8];
    user.fetch_module(&mut store, &id, &module_page(), 100).unwrap();
    let first = format!("{:?}", store.cached_module(&id).unwrap());
    assert!(matches!(user.module_step(&store, &id), Step::Cached));
    let second = format!("{:?}", store.cached_module(&id).unwrap());
    assert_eq!(first, second);
}

#[test]
fn session_expiry_mid_fetch() {
    let user = user();
    let mut store = CacheStore::new();
    let id = vec![0xC1u8];
    insert_absent(&mut store.modules, vec![stub_module(id.clone(), "Old")]);
    let page = "<html><body><h1>Timeout!</h1></body></html>";
    assert!(matches!(user.fetch_module(&mut store, &id, page, 5), Err(CrawlError::SessionExpired)));
    assert_eq!(store.modules.len(), 1);
    assert_eq!(store.modules[0].title, "Old");
    assert!(!store.modules[0].done);
    assert!(store.cached_module(&id).is_none());
}

#[test]
fn module_page_without_heading_is_an_extraction_error() {
    let user = user();
    let mut store = CacheStore::new();
    match user.fetch_module(&mut store, &[1], "<html><body><p>nothing</p></body></html>", 5) {
        Err(CrawlError::Extraction { url, field }) => {
            assert_eq!(field, Field::Heading);
            assert!(url.contains("MODULEDETAILS"));
        },
        _ => panic!("expected an extraction error"),
    }
    assert!(store.modules.is_empty());
}

fn registration_page() -> String {
    format!(
        "<html><body><h1>Anmeldung</h1><h2><a href=\"{}\">Root</a> <a href=\"{}\">Informatik</a></h2>\
         <table class=\"tbcoursestatus\"><tr><td><strong><a href=\"{}\"><span>MOD-1</span><span>Module One</span></a></strong></td></tr>\
         <tr><td><strong><a name=\"eventLink\" href=\"{}\"><span>C-1</span><span>Course One</span></a></strong></td></tr>\
         <tr><td><strong><a name=\"eventLink\" href=\"{}\"><span>C-2</span><span>Course Two</span></a></strong></td></tr>\
         </table></body></html>",
        link("REGISTRATION", "00"),
        link("REGISTRATION", "0101"),
        link("MODULEDETAILS", "d1"),
        link("COURSEDETAILS", "e1"),
        link("COURSEDETAILS", "e2")
    )
}

#[test]
fn registration_module_leaf_level() {
    let user = user();
    let mut store = CacheStore::new();
    let id = vec![1u8, 1];
    assert!(matches!(user.registration_step(&store, &id), Step::Fetch { .. }));
    user.fetch_registration(&mut store, &id, &registration_page(), 7).unwrap();
    assert!(matches!(user.registration_step(&store, &id), Step::Cached));
    let (menu, submenus, modules) = store.cached_registration(&id).unwrap();
    assert_eq!(menu.name, "Informatik");
    assert!(menu.done);
    assert!(submenus.is_empty());
    assert_eq!(modules.len(), 1);
    assert_eq!(modules[0].0.tucan_id, vec![0xD1]);
    assert_eq!(modules[0].0.title, "Module One");
    assert_eq!(modules[0].1.len(), 2);
    assert_eq!(modules[0].1[1].tucan_id, vec![0xE2]);
}

#[test]
fn registration_courses_without_header_go_to_placeholder() {
    let user = user();
    let mut store = CacheStore::new();
    let page = format!(
        "<html><body><h2><a href=\"{}\">Menu</a></h2><table class=\"tbcoursestatus\"><tr><td><strong>\
         <a name=\"eventLink\" href=\"{}\"><span>C-9</span><span>Lone</span></a></strong></td></tr></table></body></html>",
        link("REGISTRATION", "02"),
        link("COURSEDETAILS", "f9")
    );
    user.fetch_registration(&mut store, &[2], &page, 7).unwrap();
    let placeholder = TucanUser::placeholder_module_id();
    assert_eq!(placeholder, vec![0x4d, 0x40, 0x80, 0x35, 0x20, 0x87, 0x10, 0x84, 0x92]);
    let (_, _, modules) = store.cached_registration(&[2]).unwrap();
    assert_eq!(modules.len(), 1);
    assert_eq!(modules[0].0.tucan_id, placeholder);
    assert_eq!(modules[0].1[0].tucan_id, vec![0xF9]);
}

#[test]
fn registration_needs_exactly_one_kind_marker() {
    let user = user();
    let mut store = CacheStore::new();
    let page = format!("<html><body><h2><a href=\"{}\">Menu</a></h2></body></html>", link("REGISTRATION", "03"));
    match user.fetch_registration(&mut store, &[3], &page, 7) {
        Err(CrawlError::Extraction { field, .. }) => assert_eq!(field, Field::MenuKind),
        _ => panic!("expected an extraction error"),
    }
}

#[test]
fn submenu_level_registration() {
    let user = user();
    let mut store = CacheStore::new();
    let page = format!(
        "<html><body><h2><a href=\"{}\">Menu</a></h2><div id=\"contentSpacer_IE\"><ul><li><a href=\"{}\"> Child </a></li></ul></div></body></html>",
        link("REGISTRATION", "04"),
        link("REGISTRATION", "0405")
    );
    user.fetch_registration(&mut store, &[4], &page, 7).unwrap();
    let (_, submenus, modules) = store.cached_registration(&[4]).unwrap();
    assert!(modules.is_empty());
    assert_eq!(submenus.len(), 1);
    assert_eq!(submenus[0].name, "Child");
    assert_eq!(submenus[0].tucan_id, vec![4, 5]);
    assert_eq!(submenus[0].parent, Some(vec![4]));
}

#[test]
fn codec_round_trip_all_kinds() {
    let kinds = [
        ProgramKind::ModuleDetails,
        ProgramKind::CourseDetails,
        ProgramKind::ExamDetails,
        ProgramKind::Registration,
        ProgramKind::RootRegistration,
        ProgramKind::MyModules,
        ProgramKind::MyCourses,
        ProgramKind::MyExams,
        ProgramKind::PersonalAddress,
    ];
    let ids: Vec<Vec<u8>> = vec![vec![], (0u8..16).map(|i| i.wrapping_mul(37).wrapping_add(201)).collect(), vec![0, 255]];
    for kind in kinds {
        for id in &ids {
            for session in [None, Some(0), Some(u64::MAX)] {
                let url = encode(kind, id, session);
                let p = decode(&url).unwrap();
                assert_eq!(p.kind, kind);
                assert_eq!(&p.id, id);
            }
        }
    }
}

#[test]
fn codec_encodes_exactly() {
    assert_eq!(
        encode(ProgramKind::ModuleDetails, &[0xA1, 0x05], Some(42)),
        "https://www.tucan.tu-darmstadt.de/scripts/mgrqispi.dll?APPNAME=CampusNet&PRGNAME=MODULEDETAILS&ARGUMENTS=-N42,-Aa105"
    );
    assert_eq!(
        encode(ProgramKind::MyExams, &[], None),
        "https://www.tucan.tu-darmstadt.de/scripts/mgrqispi.dll?APPNAME=CampusNet&PRGNAME=MYEXAMS&ARGUMENTS=-N1,-A"
    );
}

#[test]
fn codec_rejects_unexpected_and_malformed() {
    let url = encode(ProgramKind::CourseDetails, &[1, 2], Some(3));
    assert_eq!(decode_expecting(&url, ProgramKind::ModuleDetails).unwrap_err(), DecodeError::UnexpectedProgram);
    assert_eq!(decode_expecting(&url, ProgramKind::CourseDetails).unwrap(), vec![1, 2]);
    assert_eq!(decode("https://example.org/").unwrap_err(), DecodeError::Malformed);
    assert_eq!(decode(&url.replace("-A0102", "-A012")).unwrap_err(), DecodeError::Malformed);
    assert_eq!(decode(&url.replace("COURSEDETAILS", "NOPE")).unwrap_err(), DecodeError::Malformed);
}

#[test]
fn datetime_parsing() {
    let t = parse_datetime("Mo, 3. Apr. 2023 10:00-12:00").unwrap();
    assert!(!t.starred);
    assert_eq!(t.start, DateTime { year: 2023, month: 4, day: 3, hour: 10, minute: 0 });
    assert_eq!(t.end, DateTime { year: 2023, month: 4, day: 3, hour: 12, minute: 0 });
    let t = parse_datetime("Mo, 3. Apr. 2023 22:00-24:00").unwrap();
    assert_eq!(t.end, DateTime { year: 2023, month: 4, day: 3, hour: 23, minute: 59 });
    let t = parse_datetime("Di, 14. M\u{e4}r. 2023* 08:15-09:45").unwrap();
    assert!(t.starred);
    assert_eq!(t.start.month, 3);
    assert_eq!(t.start.day, 14);
}

#[test]
fn datetime_errors() {
    assert_eq!(parse_datetime("Mo, 31. Apr. 2023 10:00-12:00"), Err(DateTimeError::InvalidDate));
    assert_eq!(parse_datetime("Mo, 1. Apr. 2023 25:00-26:00"), Err(DateTimeError::InvalidDate));
    assert_eq!(parse_datetime("Mo, 3. April 2023 10:00-12:00"), Err(DateTimeError::Malformed));
    assert_eq!(parse_datetime(""), Err(DateTimeError::Malformed));
}

#[test]
fn stub_batch_does_not_downgrade() {
    let mut store = CacheStore::new();
    insert_absent(&mut store.modules, vec![stub_module(vec![7], "first stub")]);
    insert_absent(&mut store.modules, vec![stub_module(vec![7], "second stub")]);
    assert_eq!(store.modules.len(), 1);
    assert_eq!(store.modules[0].title, "first stub");
    let mut complete = stub_module(vec![8], "complete");
    complete.done = true;
    upsert(&mut store.modules, complete);
    insert_absent(&mut store.modules, vec![stub_module(vec![8], "stub")]);
    let row = store.modules.iter().find(|m| m.tucan_id == vec![8]).unwrap();
    assert!(row.done);
    assert_eq!(row.title, "complete");
}

#[test]
fn done_never_reverts_on_upsert() {
    let mut store = CacheStore::new();
    let mut complete = stub_module(vec![9], "complete");
    complete.done = true;
    upsert(&mut store.modules, complete);
    upsert(&mut store.modules, stub_module(vec![9], "again"));
    assert!(store.modules[0].done);
}

#[test]
fn parent_is_preserved() {
    let mut store = CacheStore::new();
    let menu = |parent: Option<Vec<u8>>| ModuleMenu { tucan_id: vec![5], tucan_last_checked: 0, name: String::from("n"), done: false, parent };
    upsert(&mut store.module_menus, menu(Some(vec![1])));
    upsert(&mut store.module_menus, menu(None));
    assert_eq!(store.module_menus[0].parent, Some(vec![1]));
}

#[test]
fn normalize_slugs() {
    assert_eq!(TucanUser::normalize("Foo (Bar) / Baz."), "foo-bar-baz");
    assert_eq!(TucanUser::normalize("  A.B  "), "a-b");
    assert_eq!(TucanUser::normalize(""), "");
}

fn course_page() -> String {
    format!(
        "<html><body><form><h1>\n  20-00-0001\n  Algorithmen\n</h1></form><div id=\"contentlayoutleft\"><table><tr><td class=\"tbdata\">Inhalt</td></tr></table>\
         <p><b>Semesterwochenstunden: </b> 4 </p></div>\
         <table><caption>Termine</caption><tbody>\
         <tr><td>1</td><td>Mo, 3. Apr. 2023</td><td>10:00</td><td>12:00</td><td><a href=\"#\">S101</a></td><td> Prof. X </td></tr>\
         <tr><td>2</td><td>Di, 4. Apr. 2023*</td><td>10:00</td><td>12:00</td><td><a href=\"#\">S102</a></td><td>Prof. Y</td></tr>\
         </tbody></table>\
         <ul class=\"dl-ul-listview\"><li class=\"listelement\"><span class=\"dl-ul-li-headline\"><strong>Gruppe 1</strong></span>\
         <a class=\"img_arrowLeft\" href=\"{}\">Details</a></li></ul></body></html>",
        link("COURSEDETAILS", "c7")
    )
}

#[test]
fn course_resolution() {
    let user = user();
    let mut store = CacheStore::new();
    let id = vec![0xC5u8];
    assert_eq!(user.fetch_course_or_course_group(&mut store, &id, &course_page(), 3).unwrap(), false);
    let (course, groups, events) = store.cached_course(&id).unwrap();
    assert_eq!(course.title, "Algorithmen");
    assert_eq!(course.course_id, "20-00-0001");
    assert_eq!(course.sws, 4);
    assert_eq!(groups.len(), 1);
    assert_eq!(groups[0].tucan_id, vec![0xC7]);
    assert_eq!(groups[0].title, "Gruppe 1");
    assert_eq!(events.len(), 1);
    assert_eq!(events[0].room, "S101");
    assert_eq!(events[0].teachers, "Prof. X");
    assert!(matches!(user.course_step(&store, &id), Step::Cached));
}

#[test]
fn course_group_resolution() {
    let user = user();
    let mut store = CacheStore::new();
    let page = format!(
        "<html><body><form><h1>Kurs</h1><h2>Gruppe</h2></form><a class=\"img_arrowLeft\" href=\"{}\">Plenumsveranstaltung anzeigen</a>\
         <ul class=\"dl-ul-listview\"><li class=\"tbsubhead\"><span class=\"dl-ul-li-headline\"><strong>Gruppe 7</strong></span></li></ul>\
         <table><caption>Termine</caption><tbody><tr><td>Es liegen keine Termine vor.</td></tr></tbody></table></body></html>",
        link("COURSEDETAILS", "c5")
    );
    assert_eq!(user.fetch_course_or_course_group(&mut store, &[0xC7], &page, 3).unwrap(), true);
    let (group, events) = store.cached_course_group(&[0xC7]).unwrap();
    assert_eq!(group.title, "Gruppe 7");
    assert_eq!(group.course, vec![0xC5]);
    assert!(events.is_empty());
    assert!(store.cached_course(&[0xC5]).is_none());
    assert_eq!(store.courses.len(), 1);
}

fn exam_page() -> String {
    String::from(
        "<html><body><table><tr><td><b>Name</b>: Klausur</td></tr><tr><td><b>Semester</b>: SoSe 2023</td></tr>\
         <tr><td><b>Anmeldezeitraum</b>: 01.03.23 10:00 - 15.03.23 23:59</td></tr>\
         <tr><td><b>Abmeldezeitraum</b>: 01.03.23 10:00 - 20.03.23 23:59</td></tr>\
         <tr><td><b>Pr\u{fc}fer</b>: Prof. Z</td></tr><tr><td><b>Raum</b>: <a href=\"#\">S101</a></td></tr>\
         <tr><td><b>Termin</b>: Mo, 3. Apr. 2023 10:00-12:00</td></tr></table></body></html>",
    )
}

#[test]
fn exam_details_resolution() {
    let user = user();
    let mut store = CacheStore::new();
    let id = vec![0xE7u8];
    assert!(matches!(user.exam_step(&store, &id), Step::Fetch { .. }));
    user.fetch_exam_details(&mut store, &id, &exam_page()).unwrap();
    let (exam, modules, courses) = store.cached_exam_details(&id).unwrap();
    assert_eq!(exam.exam_type, "Klausur");
    assert_eq!(exam.semester, "SoSe 2023");
    assert_eq!(exam.registration_start, Some(DateTime { year: 2023, month: 3, day: 1, hour: 10, minute: 0 }));
    assert_eq!(exam.unregistration_end, Some(DateTime { year: 2023, month: 3, day: 20, hour: 23, minute: 59 }));
    assert_eq!(exam.examinator.as_deref(), Some("Prof. Z"));
    assert_eq!(exam.room.as_deref(), Some("S101"));
    assert_eq!(exam.exam_time_start, Some(DateTime { year: 2023, month: 4, day: 3, hour: 10, minute: 0 }));
    assert!(modules.is_empty() && courses.is_empty());
    assert!(matches!(user.exam_step(&store, &id), Step::Cached));
}

#[test]
fn exam_without_windows_is_an_extraction_error() {
    let user = user();
    let mut store = CacheStore::new();
    let page = "<html><body><table><tr><td><b>Name</b>: Klausur</td></tr></table></body></html>";
    match user.fetch_exam_details(&mut store, &[1], page) {
        Err(CrawlError::Extraction { field, .. }) => assert_eq!(field, Field::Label),
        _ => panic!("expected an extraction error"),
    }
    let bad = exam_page().replace("01.03.23 10:00 - 15.03.23", "01.03.23 10:00 15.03.23");
    match user.fetch_exam_details(&mut store, &[1], &bad) {
        Err(CrawlError::Extraction { field, .. }) => assert_eq!(field, Field::DateRange),
        _ => panic!("expected an extraction error"),
    }
    assert!(store.exams.is_empty());
}

#[test]
fn my_exams_listing() {
    let user = user();
    let mut store = CacheStore::new();
    assert!(matches!(user.my_exams_step(&store), Step::Fetch { .. }));
    let page = format!(
        "<html><body><table><tbody><tr><td>1</td><td><a href=\"{}\">Mod Title</a></td><td><a href=\"{}\">Klausur</a></td>\
         <td><a href=\"#\">Mo, 3. Apr. 2023 10:00-12:00</a></td><td>ja</td></tr>\
         <tr><td>2</td><td><a href=\"{}\">Course Title</a></td><td><a href=\"{}\">Test</a></td><td></td><td>ja</td></tr></tbody></table></body></html>",
        link("MODULEDETAILS", "11"),
        link("EXAMDETAILS", "21"),
        link("COURSEDETAILS", "12"),
        link("EXAMDETAILS", "22")
    );
    user.fetch_my_exams(&mut store, &page, 9).unwrap();
    assert!(matches!(user.my_exams_step(&store), Step::Cached));
    let exams = store.cached_my_exams(user.session.matriculation_number).unwrap();
    assert_eq!(exams.len(), 2);
    assert_eq!(exams[0].tucan_id, vec![0x21]);
    assert_eq!(exams[0].exam_type, "Klausur");
    assert_eq!(exams[1].exam_time_start, None);
    assert_eq!(store.modules[0].tucan_id, vec![0x11]);
    assert_eq!(store.modules[0].title, "Mod Title");
    assert_eq!(store.courses[0].tucan_id, vec![0x12]);
    assert_eq!(store.module_exams.len(), 1);
    assert_eq!(store.course_exams.len(), 1);
}

#[test]
fn my_modules_listing_and_marks() {
    let user = user();
    let mut store = CacheStore::new();
    let page = format!(
        "<html><body><table><tbody><tr><td><a href=\"{}\">A</a></td></tr><tr><td><a href=\"{}\">B</a></td></tr>\
         <tr><td><a href=\"/elsewhere\">C</a></td></tr></tbody></table></body></html>",
        link("MODULEDETAILS", "31"),
        link("MODULEDETAILS", "32")
    );
    let ids = user.listing(&page, ProgramKind::MyModules, ProgramKind::ModuleDetails).unwrap();
    assert_eq!(ids, vec![vec![0x31], vec![0x32]]);
    assert!(matches!(user.my_modules_step(&store), Step::Fetch { .. }));
    store.persist_my_modules(user.session.matriculation_number, ids, 11);
    assert!(matches!(user.my_modules_step(&store), Step::Cached));
    assert!(store.cached_my_modules(user.session.matriculation_number).unwrap().is_empty());
    assert!(matches!(user.listing("<h1>Timeout!</h1>", ProgramKind::MyModules, ProgramKind::ModuleDetails), Err(CrawlError::SessionExpired)));
}

#[test]
fn my_courses_partition() {
    let user = user();
    let mut store = CacheStore::new();
    user.fetch_course_or_course_group(&mut store, &[0xC5], &course_page(), 3).unwrap();
    let (courses, groups) = TucanUser::partition_courses(&store, &vec![vec![0xC5], vec![0x99]]);
    assert_eq!(courses, vec![vec![0xC5]]);
    assert!(groups.is_empty());
    store.persist_my_courses(user.session.matriculation_number, courses, groups, 4);
    assert_eq!(store.user_courses.len(), 1);
}

#[test]
fn personal_data_and_root_registration() {
    let page = "<html><body><table><tr><td name=\"matriculationNumber\"> 2345678 </td></tr></table></body></html>";
    let user = user();
    assert_eq!(user.personal_data(page).unwrap(), 2345678);
    match user.personal_data("<html><body></body></html>") {
        Err(CrawlError::Extraction { url, field }) => {
            assert_eq!(field, Field::Label);
            assert!(url.contains("PRGNAME=PERSADDRESS"));
        },
        _ => panic!("expected an extraction error"),
    }
    let root = format!(
        "<html><body><h2><a href=\"{}\">Anmeldung</a><a href=\"#\"><!--$MG_DESCNAVI--></a></h2></body></html>",
        link("REGISTRATION", "000a")
    );
    let menu = user.root_registration(&root, 1).unwrap();
    assert_eq!(menu.tucan_id, vec![0, 10]);
    assert_eq!(menu.name, "Anmeldung");
    assert!(menu.parent.is_none() && !menu.done);
}

#[test]
fn cached_course_or_course_group_tells_kinds_apart() {
    let user = user();
    let mut store = CacheStore::new();
    assert!(TucanUser::cached_course_or_course_group(&store, &[0xC5]).is_none());
    user.fetch_course_or_course_group(&mut store, &[0xC5], &course_page(), 3).unwrap();
    assert!(matches!(
        TucanUser::cached_course_or_course_group(&store, &[0xC5]),
        Some(tucant::crawl::CourseOrCourseGroup::Course(_))
    ));
}

#[test]
fn my_modules_batch_aborts_on_first_failure() {
    let user = user();
    let mut store = CacheStore::new();
    let results = vec![Ok(()), Err(CrawlError::SessionExpired), Ok(())];
    assert_eq!(user.complete_my_modules(&mut store, vec![vec![1], vec![2], vec![3]], &results, 5), Some(1));
    assert!(store.user_modules.is_empty());
    assert!(store.cached_my_modules(user.session.matriculation_number).is_none());
    let results = vec![Ok(()), Ok(())];
    assert_eq!(user.complete_my_modules(&mut store, vec![vec![1], vec![2]], &results, 5), None);
    assert_eq!(store.user_modules.len(), 2);
    assert_eq!(store.user_modules[0].entity, vec![1]);
}

#[test]
fn my_courses_batch_aborts_on_first_failure() {
    let user = user();
    let mut store = CacheStore::new();
    user.fetch_course_or_course_group(&mut store, &[0xC5], &course_page(), 3).unwrap();
    let ids = vec![vec![0xC5], vec![0x99]];
    let failed = vec![Ok(false), Err(CrawlError::SessionExpired)];
    assert_eq!(user.complete_my_courses(&mut store, &ids, &failed, 4), Some(1));
    assert!(store.user_courses.is_empty());
    let fine = vec![Ok(false), Ok(false)];
    assert_eq!(user.complete_my_courses(&mut store, &ids, &fine, 4), None);
    assert_eq!(store.user_courses.len(), 1);
    assert_eq!(store.user_courses[0].entity, vec![0xC5]);
}

#[test]
fn registration_with_both_kinds_is_an_error() {
    let user = user();
    let mut store = CacheStore::new();
    let page = format!(
        "<html><body><h2><a href=\"{}\">Menu</a></h2><table class=\"tbcoursestatus\"><tr><td></td></tr></table>\
         <div id=\"contentSpacer_IE\"><ul><li><a href=\"{}\">Child</a></li></ul></div></body></html>",
        link("REGISTRATION", "06"),
        link("REGISTRATION", "0607")
    );
    match user.fetch_registration(&mut store, &[6], &page, 7) {
        Err(CrawlError::Extraction { url, field }) => {
            assert_eq!(field, Field::MenuKind);
            assert!(url.contains("PRGNAME=REGISTRATION"));
        },
        _ => panic!("expected an extraction error"),
    }
    assert!(store.module_menus.is_empty());
}

#[test]
fn timetable_rows_come_from_the_termine_table_only() {
    let user = user();
    let mut store = CacheStore::new();
    let page = course_page().replace(
        "<table><caption>Termine</caption>",
        "<table><caption>Literatur</caption><tbody><tr><td>x</td></tr></tbody></table><table><caption>Termine</caption>",
    );
    user.fetch_course(&mut store, &[0xC6], &page, 3).unwrap();
    let (_, _, events) = store.cached_course(&[0xC6]).unwrap();
    assert_eq!(events.len(), 1);
    assert_eq!(events[0].room, "S101");
}

#[test]
fn datetime_found_inside_longer_text() {
    let t = parse_datetime(" Mo, 3. Apr. 2023 10:00-12:00 ").unwrap();
    assert_eq!(t.start, DateTime { year: 2023, month: 4, day: 3, hour: 10, minute: 0 });
    let t = parse_datetime("Termin: Fr, 14. Jul. 2023 08:00-24:00 (Hörsaal)").unwrap();
    assert_eq!(t.end, DateTime { year: 2023, month: 7, day: 14, hour: 23, minute: 59 });
    assert_eq!(parse_datetime("no date here"), Err(DateTimeError::Malformed));
}

#[test]
fn registration_keeps_a_set_parent() {
    let user = user();
    let mut store = CacheStore::new();
    upsert(
        &mut store.module_menus,
        ModuleMenu { tucan_id: vec![8], tucan_last_checked: 0, name: String::from("Old"), done: false, parent: Some(vec![1]) },
    );
    let page = format!(
        "<html><body><h2><a href=\"{}\">Menu</a></h2><div id=\"contentSpacer_IE\"><ul><li><a href=\"{}\">Self</a></li></ul></div></body></html>",
        link("REGISTRATION", "08"),
        link("REGISTRATION", "08")
    );
    user.fetch_registration(&mut store, &[8], &page, 7).unwrap();
    let row = store.module_menus.iter().find(|m| m.tucan_id == vec![8]).unwrap();
    assert_eq!(row.parent, Some(vec![1]));
    assert!(row.done);
    assert_eq!(row.name, "Menu");
}
