use vstd::prelude::*;

use crate::models::{
    Course, CourseEvent, CourseExam, CourseGroup, Exam, Module, ModuleCourse, ModuleExam, ModuleMenu,
    ModuleMenuEntryModule, UserEntry, UserMarks,
};
use crate::store::{
    done_row, get, get_linked, grows_from, insert_absent, insert_links, inserted_absent, keys_unique,
    linked_rows, row_of, upsert, upsert_all, upserted, upserted_all, Link, Record,
};
use crate::text::{bytes_eq, copy_bytes};

verus! {

/// The relational cache: one table per kind of entity, keyed by identifier, and the join tables.
pub struct CacheStore {
    pub modules: Vec<Module>,
    pub courses: Vec<Course>,
    pub course_groups: Vec<CourseGroup>,
    pub exams: Vec<Exam>,
    pub module_menus: Vec<ModuleMenu>,
    pub course_events: Vec<CourseEvent>,
    pub course_group_events: Vec<CourseEvent>,
    pub module_courses: Vec<ModuleCourse>,
    pub module_menu_modules: Vec<ModuleMenuEntryModule>,
    pub module_exams: Vec<ModuleExam>,
    pub course_exams: Vec<CourseExam>,
    pub user_modules: Vec<UserEntry>,
    pub user_courses: Vec<UserEntry>,
    pub user_course_groups: Vec<UserEntry>,
    pub user_exams: Vec<UserEntry>,
    pub users: Vec<UserMarks>,
}

/// Completeness is monotonic: once a row of any entity table is complete, it stays complete
/// and keeps its identifier in every later state of the cache, since each write of the cache
/// grows it; and growing is transitive, so this holds across any sequence of writes.
pub proof fn lemma_done_is_permanent(s1: &CacheStore, s2: &CacheStore, s3: &CacheStore, id: Seq<u8>)
    requires
        s1.wf(),
        s2.wf(),
        s3.wf(),
        s2.grows_from(s1),
        s3.grows_from(s2),
    ensures
        s3.grows_from(s1),
        done_row(s1.modules@, id) ==> done_row(s3.modules@, id),
        done_row(s1.courses@, id) ==> done_row(s3.courses@, id),
        done_row(s1.course_groups@, id) ==> done_row(s3.course_groups@, id),
        done_row(s1.exams@, id) ==> done_row(s3.exams@, id),
        done_row(s1.module_menus@, id) ==> done_row(s3.module_menus@, id),
{
    if done_row(s1.modules@, id) {
        crate::store::lemma_done_row_grows(s1.modules@, s3.modules@, id);
    }
    if done_row(s1.courses@, id) {
        crate::store::lemma_done_row_grows(s1.courses@, s3.courses@, id);
    }
    if done_row(s1.course_groups@, id) {
        crate::store::lemma_done_row_grows(s1.course_groups@, s3.course_groups@, id);
    }
    if done_row(s1.exams@, id) {
        crate::store::lemma_done_row_grows(s1.exams@, s3.exams@, id);
    }
    if done_row(s1.module_menus@, id) {
        crate::store::lemma_done_row_grows(s1.module_menus@, s3.module_menus@, id);
    }
}

/// Upserting a registration node without a parent over a row that has the parent `x` leaves
/// the parent `x`.
pub proof fn lemma_parent_preserved(t: Seq<ModuleMenu>, m: ModuleMenu)
    requires
        keys_unique(t),
        row_of(t, m.key()) matches Some(old) && old.parent is Some,
        m.parent is None,
    ensures
        row_of(upserted(t, m), m.key()) matches Some(new) && new.parent == row_of(t, m.key()).unwrap().parent,
{
    crate::store::lemma_upserted_row(t, m);
}

/// Every row of `t1` whose parent is set has the same parent at the same place in `t2`.
pub open spec fn parents_kept(t1: Seq<ModuleMenu>, t2: Seq<ModuleMenu>) -> bool {
    t1.len() <= t2.len() && forall|i: int| 0 <= i < t1.len() && t1[i].parent is Some ==> #[trigger] t2[i].parent
        == t1[i].parent
}

proof fn lemma_upserted_parents(t: Seq<ModuleMenu>, m: ModuleMenu)
    ensures
        parents_kept(t, upserted(t, m)),
{
}

proof fn lemma_upserted_all_parents(t: Seq<ModuleMenu>, rs: Seq<ModuleMenu>)
    ensures
        parents_kept(t, upserted_all(t, rs)),
    decreases rs.len(),
{
    if rs.len() > 0 {
        lemma_upserted_all_parents(t, rs.drop_last());
        let t1 = upserted_all(t, rs.drop_last());
        lemma_upserted_parents(t1, rs.last());
    }
}

/// A parent is set at most once: writing a registration node and then its child nodes (all
/// with insert-or-update) leaves every node that had a parent with that parent.
pub proof fn lemma_registration_keeps_parents(t: Seq<ModuleMenu>, menu: ModuleMenu, subs: Seq<ModuleMenu>, k: Seq<u8>)
    requires
        keys_unique(t),
        keys_unique(upserted_all(upserted(t, menu), subs)),
        grows_from(t, upserted_all(upserted(t, menu), subs)),
        row_of(t, k) matches Some(o) && o.parent is Some,
    ensures
        row_of(upserted_all(upserted(t, menu), subs), k) matches Some(n) && n.parent == row_of(t, k).unwrap().parent,
{
    let t1 = upserted(t, menu);
    let t2 = upserted_all(t1, subs);
    lemma_upserted_parents(t, menu);
    lemma_upserted_all_parents(t1, subs);
    let i = choose|i: int| 0 <= i < t.len() && #[trigger] t[i].key() == k;
    crate::store::lemma_row_at(t, i);
    assert(t2[i].key() == k);
    crate::store::lemma_row_at(t2, i);
}

/// The tables of the cache, by name.
#[derive(Clone, Copy, Debug, PartialEq, Eq, Structural)]
pub enum Table {
    Modules,
    Courses,
    CourseGroups,
    Exams,
    ModuleMenus,
    CourseEvents,
    CourseGroupEvents,
    ModuleCourses,
    ModuleMenuModules,
    ModuleExams,
    CourseExams,
    UserModules,
    UserCourses,
    UserCourseGroups,
    UserExams,
    Users,
}

/// The rows of `t` that `f` keeps, in order.
pub open spec fn kept<T>(t: Seq<T>, f: spec_fn(T) -> bool) -> Seq<T>
    decreases t.len(),
{
    if t.len() == 0 {
        Seq::empty()
    } else if f(t.last()) {
        kept(t.drop_last(), f).push(t.last())
    } else {
        kept(t.drop_last(), f)
    }
}

pub open spec fn group_of(k: Seq<u8>) -> spec_fn(CourseGroup) -> bool {
    |g: CourseGroup| g.course@ == k
}

pub open spec fn event_of(k: Seq<u8>) -> spec_fn(CourseEvent) -> bool {
    |e: CourseEvent| e.course@ == k
}

pub open spec fn child_of(k: Seq<u8>) -> spec_fn(ModuleMenu) -> bool {
    |m: ModuleMenu| m.parent matches Some(p) && p@ == k
}

/// Two schedule entries of the same owner at the same time in the same room are one entry.
pub open spec fn same_slot(a: CourseEvent, b: CourseEvent) -> bool {
    a.course@ == b.course@ && a.timestamp_start == b.timestamp_start && a.timestamp_end == b.timestamp_end
        && a.room@ == b.room@
}

pub open spec fn has_slot(t: Seq<CourseEvent>, e: CourseEvent) -> bool {
    exists|i: int| 0 <= i < t.len() && same_slot(#[trigger] t[i], e)
}

/// The table of schedule entries after writing `e`: an entry in the same slot takes the new
/// teachers and keeps the rest, otherwise `e` is added.
pub open spec fn event_written(t: Seq<CourseEvent>, e: CourseEvent) -> Seq<CourseEvent> {
    if has_slot(t, e) {
        let i = choose|i: int| 0 <= i < t.len() && same_slot(#[trigger] t[i], e);
        t.update(i, CourseEvent { teachers: e.teachers, ..t[i] })
    } else {
        t.push(e)
    }
}

pub open spec fn events_written(t: Seq<CourseEvent>, es: Seq<CourseEvent>) -> Seq<CourseEvent>
    decreases es.len(),
{
    if es.len() == 0 {
        t
    } else {
        event_written(events_written(t, es.drop_last()), es.last())
    }
}

pub open spec fn slots_unique(t: Seq<CourseEvent>) -> bool {
    forall|i: int, j: int| 0 <= i < j < t.len() ==> !same_slot(#[trigger] t[i], #[trigger] t[j])
}

/// The links from `k` to each row of `rs`, in order.
pub open spec fn has_links_to<L: Link, T: Record>(links: Seq<L>, k: Seq<u8>, rs: Seq<T>) -> bool {
    forall|j: int| 0 <= j < rs.len() ==> crate::store::has_link(links, (k, #[trigger] rs[j].key()))
}

impl CacheStore {
    /// The tables are well formed: one row per identifier, one entry per slot.
    pub open spec fn wf(&self) -> bool {
        &&& keys_unique(self.modules@)
        &&& keys_unique(self.courses@)
        &&& keys_unique(self.course_groups@)
        &&& keys_unique(self.exams@)
        &&& keys_unique(self.module_menus@)
        &&& slots_unique(self.course_events@)
        &&& slots_unique(self.course_group_events@)
        &&& marks_unique(self.users@)
    }

    /// Every row of `old` is still in `self` at the same place with the same identifier, and
    /// none that was complete has become incomplete.
    pub open spec fn grows_from(&self, old: &CacheStore) -> bool {
        &&& grows_from(old.modules@, self.modules@)
        &&& grows_from(old.courses@, self.courses@)
        &&& grows_from(old.course_groups@, self.course_groups@)
        &&& grows_from(old.exams@, self.exams@)
        &&& grows_from(old.module_menus@, self.module_menus@)
    }

    /// Every table of `self` but those in `written` is as it was in `old`.
    pub open spec fn keeps_except(&self, old: &CacheStore, written: Set<Table>) -> bool {
        &&& !written.contains(Table::Modules) ==> self.modules@ == old.modules@
        &&& !written.contains(Table::Courses) ==> self.courses@ == old.courses@
        &&& !written.contains(Table::CourseGroups) ==> self.course_groups@ == old.course_groups@
        &&& !written.contains(Table::Exams) ==> self.exams@ == old.exams@
        &&& !written.contains(Table::ModuleMenus) ==> self.module_menus@ == old.module_menus@
        &&& !written.contains(Table::CourseEvents) ==> self.course_events@ == old.course_events@
        &&& !written.contains(Table::CourseGroupEvents) ==> self.course_group_events@ == old.course_group_events@
        &&& !written.contains(Table::ModuleCourses) ==> self.module_courses@ == old.module_courses@
        &&& !written.contains(Table::ModuleMenuModules) ==> self.module_menu_modules@ == old.module_menu_modules@
        &&& !written.contains(Table::ModuleExams) ==> self.module_exams@ == old.module_exams@
        &&& !written.contains(Table::CourseExams) ==> self.course_exams@ == old.course_exams@
        &&& !written.contains(Table::UserModules) ==> self.user_modules@ == old.user_modules@
        &&& !written.contains(Table::UserCourses) ==> self.user_courses@ == old.user_courses@
        &&& !written.contains(Table::UserCourseGroups) ==> self.user_course_groups@ == old.user_course_groups@
        &&& !written.contains(Table::UserExams) ==> self.user_exams@ == old.user_exams@
        &&& !written.contains(Table::Users) ==> self.users@ == old.users@
    }

    /// An empty cache.
    pub fn new() -> (r: CacheStore)
        ensures
            r.wf(),
            r.modules@.len() == 0 && r.courses@.len() == 0 && r.course_groups@.len() == 0,
            r.exams@.len() == 0 && r.module_menus@.len() == 0,
    {
        CacheStore {
            modules: Vec::new(),
            courses: Vec::new(),
            course_groups: Vec::new(),
            exams: Vec::new(),
            module_menus: Vec::new(),
            course_events: Vec::new(),
            course_group_events: Vec::new(),
            module_courses: Vec::new(),
            module_menu_modules: Vec::new(),
            module_exams: Vec::new(),
            course_exams: Vec::new(),
            user_modules: Vec::new(),
            user_courses: Vec::new(),
            user_course_groups: Vec::new(),
            user_exams: Vec::new(),
            users: Vec::new(),
        }
    }

    /// The module `id` with its courses, where the module is complete.
    pub fn cached_module(&self, id: &[u8]) -> (r: Option<(&Module, Vec<&Course>)>)
        requires
            self.wf(),
        ensures
            r is Some <==> done_row(self.modules@, id@),
            r matches Some((m, cs)) ==> row_of(self.modules@, id@) == Some(*m) && cs@.map_values(
                |c: &Course| *c,
            ) == linked_rows(self.module_courses@, self.courses@, id@),
    {
        match get(&self.modules, id) {
            Some(m) => {
                if m.done {
                    Some((m, get_linked(&self.module_courses, &self.courses, id)))
                } else {
                    None
                }
            },
            None => None,
        }
    }

    /// Writes a fetched module, adds its courses as stubs where they are not known yet, and links
    /// them to it.
    pub fn persist_module(&mut self, module: Module, courses: Vec<Course>)
        requires
            old(self).wf(),
        ensures
            final(self).wf(),
            final(self).keeps_except(&*old(self), set![Table::Modules, Table::Courses, Table::ModuleCourses]),
            final(self).grows_from(&*old(self)),
            final(self).modules@ == upserted(old(self).modules@, module),
            module.done ==> done_row(final(self).modules@, module.key()),
            final(self).courses@ == inserted_absent(old(self).courses@, courses@),
            has_links_to(final(self).module_courses@, module.key(), courses@),
            forall|e: (Seq<u8>, Seq<u8>)| #[trigger] crate::store::has_link(final(self).module_courses@, e) ==> crate::store::has_link(
                old(self).module_courses@,
                e,
            ) || exists|j: int| 0 <= j < courses@.len() && e == (module.key(), #[trigger] courses@[j].key()),
            final(self).module_menus@ == old(self).module_menus@,
            final(self).exams@ == old(self).exams@,
            final(self).course_groups@ == old(self).course_groups@,
    {
        let mut links: Vec<ModuleCourse> = Vec::new();
        let mut i: usize = 0;
        while i < courses.len()
            invariant
                i <= courses@.len(),
                links@.len() == i,
                forall|j: int| 0 <= j < i ==> #[trigger] links@[j].ends() == (module.key(), courses@[j].key()),
            decreases courses@.len() - i,
        {
            links.push(ModuleCourse { module: copy_bytes(&module.tucan_id), course: copy_bytes(&courses[i].tucan_id) });
            i = i + 1;
        }
        let ghost gm = module;
        upsert(&mut self.modules, module);
        proof {
            if gm.done {
                if crate::store::has_key(old(self).modules@, gm.key()) {
                    row_of(old(self).modules@, gm.key()).unwrap().lemma_merged(gm);
                }
            }
        }
        insert_absent(&mut self.courses, courses);
        let ghost ls = links@;
        insert_links(&mut self.module_courses, links);
        proof {
            assert forall|j: int| 0 <= j < courses@.len() implies crate::store::has_link(
                self.module_courses@,
                (module.key(), #[trigger] courses@[j].key()),
            ) by {
                assert(ls[j].ends() == (module.key(), courses@[j].key()));
            }
        }
    }

    /// The course `id` with its course groups and schedule entries, where the course is complete.
    pub fn cached_course(&self, id: &[u8]) -> (r: Option<(&Course, Vec<&CourseGroup>, Vec<&CourseEvent>)>)
        requires
            self.wf(),
        ensures
            r is Some <==> done_row(self.courses@, id@),
            r matches Some((c, gs, es)) ==> {
                &&& row_of(self.courses@, id@) == Some(*c)
                &&& gs@.map_values(|g: &CourseGroup| *g) == kept(self.course_groups@, group_of(id@))
                &&& es@.map_values(|e: &CourseEvent| *e) == kept(self.course_events@, event_of(id@))
            },
    {
        match get(&self.courses, id) {
            Some(c) => {
                if c.done {
                    Some((c, groups_of(&self.course_groups, id), events_of(&self.course_events, id)))
                } else {
                    None
                }
            },
            None => None,
        }
    }

    /// Writes a fetched course, adds its course groups as stubs where they are not known yet,
    /// and writes its schedule entries.
    pub fn persist_course(&mut self, course: Course, groups: Vec<CourseGroup>, events: Vec<CourseEvent>)
        requires
            old(self).wf(),
        ensures
            final(self).wf(),
            final(self).keeps_except(&*old(self), set![Table::Courses, Table::CourseGroups, Table::CourseEvents]),
            final(self).grows_from(&*old(self)),
            final(self).courses@ == upserted(old(self).courses@, course),
            course.done ==> done_row(final(self).courses@, course.key()),
            final(self).course_groups@ == inserted_absent(old(self).course_groups@, groups@),
            final(self).course_events@ == events_written(old(self).course_events@, events@),
            final(self).modules@ == old(self).modules@,
            final(self).module_menus@ == old(self).module_menus@,
            final(self).exams@ == old(self).exams@,
    {
        let ghost gc = course;
        upsert(&mut self.courses, course);
        proof {
            if gc.done && crate::store::has_key(old(self).courses@, gc.key()) {
                row_of(old(self).courses@, gc.key()).unwrap().lemma_merged(gc);
            }
        }
        insert_absent(&mut self.course_groups, groups);
        write_events(&mut self.course_events, events);
    }

    /// The course group `id` with its schedule entries, where the group is complete.
    pub fn cached_course_group(&self, id: &[u8]) -> (r: Option<(&CourseGroup, Vec<&CourseEvent>)>)
        requires
            self.wf(),
        ensures
            r is Some <==> done_row(self.course_groups@, id@),
            r matches Some((g, es)) ==> {
                &&& row_of(self.course_groups@, id@) == Some(*g)
                &&& es@.map_values(|e: &CourseEvent| *e) == kept(self.course_group_events@, event_of(id@))
            },
    {
        match get(&self.course_groups, id) {
            Some(g) => {
                if g.done {
                    Some((g, events_of(&self.course_group_events, id)))
                } else {
                    None
                }
            },
            None => None,
        }
    }

    /// Writes a fetched course group, adds the course it belongs to as a stub where that course
    /// is not known yet, and writes the group's schedule entries.
    pub fn persist_course_group(&mut self, group: CourseGroup, course: Course, events: Vec<CourseEvent>)
        requires
            old(self).wf(),
        ensures
            final(self).wf(),
            final(self).keeps_except(&*old(self), set![Table::CourseGroups, Table::Courses, Table::CourseGroupEvents]),
            final(self).grows_from(&*old(self)),
            final(self).course_groups@ == upserted(old(self).course_groups@, group),
            group.done ==> done_row(final(self).course_groups@, group.key()),
            final(self).courses@ == inserted_absent(old(self).courses@, seq![course]),
            final(self).course_group_events@ == events_written(old(self).course_group_events@, events@),
            final(self).modules@ == old(self).modules@,
            final(self).module_menus@ == old(self).module_menus@,
            final(self).exams@ == old(self).exams@,
    {
        let ghost gg = group;
        upsert(&mut self.course_groups, group);
        proof {
            if gg.done && crate::store::has_key(old(self).course_groups@, gg.key()) {
                row_of(old(self).course_groups@, gg.key()).unwrap().lemma_merged(gg);
            }
        }
        let v = vec![course];
        assert(v@ =~= seq![course]);
        insert_absent(&mut self.courses, v);
        write_events(&mut self.course_group_events, events);
    }

    /// The registration node `id`, its child nodes and its modules with their courses, where
    /// the node is complete.
    pub fn cached_registration(&self, id: &[u8]) -> (r: Option<
        (&ModuleMenu, Vec<&ModuleMenu>, Vec<(&Module, Vec<&Course>)>),
    >)
        requires
            self.wf(),
        ensures
            r is Some <==> done_row(self.module_menus@, id@),
            r matches Some((m, subs, mods)) ==> {
                let listed = linked_rows(self.module_menu_modules@, self.modules@, id@);
                &&& row_of(self.module_menus@, id@) == Some(*m)
                &&& subs@.map_values(|x: &ModuleMenu| *x) == kept(self.module_menus@, child_of(id@))
                &&& mods@.len() == listed.len()
                &&& forall|j: int|
                    0 <= j < listed.len() ==> *(#[trigger] mods@[j]).0 == listed[j] && mods@[j].1@.map_values(
                        |c: &Course| *c,
                    ) == linked_rows(self.module_courses@, self.courses@, listed[j].key())
            },
    {
        match get(&self.module_menus, id) {
            Some(m) => {
                if !m.done {
                    return None;
                }
                let subs = children_of(&self.module_menus, id);
                let listed = get_linked(&self.module_menu_modules, &self.modules, id);
                let ghost lv = listed@.map_values(|x: &Module| *x);
                let mut mods: Vec<(&Module, Vec<&Course>)> = Vec::new();
                let mut j: usize = 0;
                while j < listed.len()
                    invariant
                        self.wf(),
                        j <= listed@.len(),
                        lv == listed@.map_values(|x: &Module| *x),
                        mods@.len() == j,
                        forall|i: int|
                            0 <= i < j ==> *(#[trigger] mods@[i]).0 == lv[i] && mods@[i].1@.map_values(
                                |c: &Course| *c,
                            ) == linked_rows(self.module_courses@, self.courses@, lv[i].key()),
                    decreases listed@.len() - j,
                {
                    let m = listed[j];
                    let cs = get_linked(&self.module_courses, &self.courses, m.key_of());
                    mods.push((m, cs));
                    j = j + 1;
                }
                Some((m, subs, mods))
            },
            None => None,
        }
    }

    /// Writes a fetched registration node (complete), its child nodes as stubs where not known
    /// yet (a known node without a parent gets this one as parent), and the modules and courses
    /// it lists, the latter as stubs where not known yet.
    pub fn persist_registration(
        &mut self,
        menu: ModuleMenu,
        submenus: Vec<ModuleMenu>,
        modules: Vec<Module>,
        courses: Vec<Course>,
        module_courses: Vec<ModuleCourse>,
    )
        requires
            old(self).wf(),
            menu.done,
        ensures
            final(self).wf(),
            final(self).keeps_except(&*old(self), set![Table::ModuleMenus, Table::Modules, Table::Courses, Table::ModuleMenuModules, Table::ModuleCourses]),
            final(self).grows_from(&*old(self)),
            final(self).module_menus@ == upserted_all(upserted(old(self).module_menus@, menu), submenus@),
            done_row(final(self).module_menus@, menu.key()),
            final(self).modules@ == inserted_absent(old(self).modules@, modules@),
            final(self).courses@ == inserted_absent(old(self).courses@, courses@),
            has_links_to(final(self).module_menu_modules@, menu.key(), modules@),
            forall|j: int|
                0 <= j < module_courses@.len() ==> crate::store::has_link(
                    final(self).module_courses@,
                    #[trigger] module_courses@[j].ends(),
                ),
            final(self).exams@ == old(self).exams@,
            final(self).course_groups@ == old(self).course_groups@,
    {
        let mut links: Vec<ModuleMenuEntryModule> = Vec::new();
        let mut i: usize = 0;
        while i < modules.len()
            invariant
                i <= modules@.len(),
                links@.len() == i,
                forall|j: int| 0 <= j < i ==> #[trigger] links@[j].ends() == (menu.key(), modules@[j].key()),
            decreases modules@.len() - i,
        {
            links.push(
                ModuleMenuEntryModule {
                    module_menu_id: copy_bytes(&menu.tucan_id),
                    module_id: copy_bytes(&modules[i].tucan_id),
                },
            );
            i = i + 1;
        }
        let ghost mk = menu.key();
        let ghost gm = menu;
        upsert(&mut self.module_menus, menu);
        proof {
            if crate::store::has_key(old(self).module_menus@, mk) {
                row_of(old(self).module_menus@, mk).unwrap().lemma_merged(gm);
            }
        }
        let ghost mid = self.module_menus@;
        upsert_all(&mut self.module_menus, submenus);
        proof {
            crate::store::lemma_done_row_grows(mid, self.module_menus@, mk);
        }
        insert_absent(&mut self.modules, modules);
        insert_absent(&mut self.courses, courses);
        let ghost ls = links@;
        insert_links(&mut self.module_menu_modules, links);
        insert_links(&mut self.module_courses, module_courses);
        proof {
            assert forall|j: int| 0 <= j < modules@.len() implies crate::store::has_link(
                self.module_menu_modules@,
                (mk, #[trigger] modules@[j].key()),
            ) by {
                assert(ls[j].ends() == (mk, modules@[j].key()));
            }
        }
    }

    /// The exam `id` with the modules and courses it belongs to, where the exam is complete.
    pub fn cached_exam_details(&self, id: &[u8]) -> (r: Option<(&Exam, Vec<&Module>, Vec<&Course>)>)
        requires
            self.wf(),
        ensures
            r is Some <==> done_row(self.exams@, id@),
            r matches Some((e, ms, cs)) ==> {
                &&& row_of(self.exams@, id@) == Some(*e)
                &&& ms@.map_values(|m: &Module| *m) == linked_rows(self.module_exams@, self.modules@, id@)
                &&& cs@.map_values(|c: &Course| *c) == linked_rows(self.course_exams@, self.courses@, id@)
            },
    {
        match get(&self.exams, id) {
            Some(e) => {
                if e.done {
                    Some((e, get_linked(&self.module_exams, &self.modules, id), get_linked(&self.course_exams, &self.courses, id)))
                } else {
                    None
                }
            },
            None => None,
        }
    }

    /// Writes a fetched exam.
    pub fn persist_exam(&mut self, exam: Exam)
        requires
            old(self).wf(),
        ensures
            final(self).wf(),
            final(self).keeps_except(&*old(self), set![Table::Exams]),
            final(self).grows_from(&*old(self)),
            final(self).exams@ == upserted(old(self).exams@, exam),
            exam.done ==> done_row(final(self).exams@, exam.key()),
            final(self).modules@ == old(self).modules@,
            final(self).courses@ == old(self).courses@,
            final(self).module_menus@ == old(self).module_menus@,
            final(self).course_groups@ == old(self).course_groups@,
    {
        let ghost ge = exam;
        upsert(&mut self.exams, exam);
        proof {
            if ge.done && crate::store::has_key(old(self).exams@, ge.key()) {
                row_of(old(self).exams@, ge.key()).unwrap().lemma_merged(ge);
            }
        }
    }

    /// The modules of the user's profile, where that collection has been fetched as a whole.
    pub fn cached_my_modules(&self, user: i32) -> (r: Option<Vec<&Module>>)
        requires
            self.wf(),
        ensures
            r is Some <==> (marks_of(self.users@, user) matches Some(mk) && mk.user_modules_last_checked is Some),
            r matches Some(ms) ==> ms@.map_values(|m: &Module| *m) == user_rows(self.user_modules@, self.modules@, user),
    {
        let checked = match find_marks(&self.users, user) {
            Some(i) => self.users[i].user_modules_last_checked.is_some(),
            None => false,
        };
        if checked {
            Some(user_entities(&self.user_modules, &self.modules, user))
        } else {
            None
        }
    }

    /// Records the modules `ids` as belonging to the user's profile, and the time `now` at
    /// which that collection was fetched.
    pub fn persist_my_modules(&mut self, user: i32, ids: Vec<Vec<u8>>, now: i64)
        requires
            old(self).wf(),
        ensures
            final(self).wf(),
            final(self).keeps_except(&*old(self), set![Table::UserModules, Table::Users]),
            final(self).modules@ == old(self).modules@,
            final(self).courses@ == old(self).courses@,
            final(self).exams@ == old(self).exams@,
            final(self).module_menus@ == old(self).module_menus@,
            final(self).course_groups@ == old(self).course_groups@,
            final(self).grows_from(&*old(self)),
            forall|j: int| 0 <= j < ids@.len() ==> has_entry(final(self).user_modules@, user, #[trigger] ids@[j]@),
            forall|u: i32, e: Seq<u8>| has_entry(old(self).user_modules@, u, e) ==> has_entry(final(self).user_modules@, u, e),
            marks_of(final(self).users@, user) matches Some(mk) && mk.user_modules_last_checked == Some(now),
    {
        add_entries(&mut self.user_modules, user, ids);
        mark_checked(&mut self.users, user, 0, now);
    }

    /// Records the courses and course groups as belonging to the user's profile, and the time
    /// `now` at which that collection was fetched.
    pub fn persist_my_courses(&mut self, user: i32, course_ids: Vec<Vec<u8>>, group_ids: Vec<Vec<u8>>, now: i64)
        requires
            old(self).wf(),
        ensures
            final(self).wf(),
            final(self).keeps_except(&*old(self), set![Table::UserCourses, Table::UserCourseGroups, Table::Users]),
            final(self).modules@ == old(self).modules@,
            final(self).courses@ == old(self).courses@,
            final(self).exams@ == old(self).exams@,
            final(self).module_menus@ == old(self).module_menus@,
            final(self).course_groups@ == old(self).course_groups@,
            final(self).grows_from(&*old(self)),
            forall|j: int| 0 <= j < course_ids@.len() ==> has_entry(final(self).user_courses@, user, #[trigger] course_ids@[j]@),
            forall|j: int| 0 <= j < group_ids@.len() ==> has_entry(final(self).user_course_groups@, user, #[trigger] group_ids@[j]@),
            marks_of(final(self).users@, user) matches Some(mk) && mk.user_courses_last_checked == Some(now),
    {
        add_entries(&mut self.user_courses, user, course_ids);
        add_entries(&mut self.user_course_groups, user, group_ids);
        mark_checked(&mut self.users, user, 1, now);
    }

    /// The exams of the user's profile, where that collection has been fetched as a whole.
    pub fn cached_my_exams(&self, user: i32) -> (r: Option<Vec<&Exam>>)
        requires
            self.wf(),
        ensures
            r is Some <==> (marks_of(self.users@, user) matches Some(mk) && mk.user_exams_last_checked is Some),
            r matches Some(es) ==> es@.map_values(|e: &Exam| *e) == user_rows(self.user_exams@, self.exams@, user),
    {
        let checked = match find_marks(&self.users, user) {
            Some(i) => self.users[i].user_exams_last_checked.is_some(),
            None => false,
        };
        if checked {
            Some(user_entities(&self.user_exams, &self.exams, user))
        } else {
            None
        }
    }

    /// Writes the exams of a user's exam listing as stubs where not known yet, the modules and
    /// courses they belong to likewise, the links between them, the user's entries, and the
    /// time `now` at which the listing was fetched.
    pub fn persist_my_exams(
        &mut self,
        user: i32,
        exams: Vec<Exam>,
        modules: Vec<Module>,
        courses: Vec<Course>,
        module_exams: Vec<ModuleExam>,
        course_exams: Vec<CourseExam>,
        now: i64,
    )
        requires
            old(self).wf(),
        ensures
            final(self).wf(),
            final(self).keeps_except(&*old(self), set![Table::Exams, Table::Modules, Table::Courses, Table::ModuleExams, Table::CourseExams, Table::UserExams, Table::Users]),
            final(self).grows_from(&*old(self)),
            final(self).exams@ == inserted_absent(old(self).exams@, exams@),
            final(self).modules@ == inserted_absent(old(self).modules@, modules@),
            final(self).courses@ == inserted_absent(old(self).courses@, courses@),
            final(self).module_menus@ == old(self).module_menus@,
            final(self).course_groups@ == old(self).course_groups@,
            forall|j: int| 0 <= j < exams@.len() ==> has_entry(final(self).user_exams@, user, #[trigger] exams@[j].key()),
            forall|j: int| 0 <= j < module_exams@.len() ==> crate::store::has_link(final(self).module_exams@, #[trigger] module_exams@[j].ends()),
            forall|j: int| 0 <= j < course_exams@.len() ==> crate::store::has_link(final(self).course_exams@, #[trigger] course_exams@[j].ends()),
            marks_of(final(self).users@, user) matches Some(mk) && mk.user_exams_last_checked == Some(now),
    {
        let mut ids: Vec<Vec<u8>> = Vec::new();
        let mut i: usize = 0;
        while i < exams.len()
            invariant
                i <= exams@.len(),
                ids@.len() == i,
                forall|j: int| 0 <= j < i ==> (#[trigger] ids@[j])@ == exams@[j].key(),
            decreases exams@.len() - i,
        {
            ids.push(copy_bytes(&exams[i].tucan_id));
            i = i + 1;
        }
        let ghost es = exams@;
        insert_absent(&mut self.exams, exams);
        insert_absent(&mut self.modules, modules);
        insert_absent(&mut self.courses, courses);
        insert_links(&mut self.module_exams, module_exams);
        insert_links(&mut self.course_exams, course_exams);
        let ghost iv = ids@;
        add_entries(&mut self.user_exams, user, ids);
        mark_checked(&mut self.users, user, 2, now);
        proof {
            assert forall|j: int| 0 <= j < es.len() implies has_entry(self.user_exams@, user, #[trigger] es[j].key()) by {
                assert(iv[j]@ == es[j].key());
            }
        }
    }
}

/// The table holds the entry of `entity` for `user`.
pub open spec fn has_entry(t: Seq<UserEntry>, user: i32, entity: Seq<u8>) -> bool {
    exists|i: int| 0 <= i < t.len() && #[trigger] t[i].user_id == user && t[i].entity@ == entity
}

/// Each user has at most one row of marks.
pub open spec fn marks_unique(t: Seq<UserMarks>) -> bool {
    forall|i: int, j: int| 0 <= i < j < t.len() ==> #[trigger] t[i].matriculation_number != #[trigger] t[j].matriculation_number
}

/// The marks of `user`, if the user has any.
pub open spec fn marks_of(t: Seq<UserMarks>, user: i32) -> Option<UserMarks> {
    if exists|i: int| 0 <= i < t.len() && #[trigger] t[i].matriculation_number == user {
        Some(t[choose|i: int| 0 <= i < t.len() && #[trigger] t[i].matriculation_number == user])
    } else {
        None
    }
}

/// The rows of `rows` that the entries of `user` name, in the order of the entries.
pub open spec fn user_rows<T: Record>(entries: Seq<UserEntry>, rows: Seq<T>, user: i32) -> Seq<T>
    decreases entries.len(),
{
    if entries.len() == 0 {
        Seq::empty()
    } else {
        let prev = user_rows(entries.drop_last(), rows, user);
        let e = entries.last();
        if e.user_id == user && crate::store::has_key(rows, e.entity@) {
            prev.push(row_of(rows, e.entity@).unwrap())
        } else {
            prev
        }
    }
}

fn user_entities<'a, T: Record>(entries: &Vec<UserEntry>, rows: &'a Vec<T>, user: i32) -> (r: Vec<&'a T>)
    requires
        keys_unique(rows@),
    ensures
        r@.map_values(|x: &T| *x) == user_rows(entries@, rows@, user),
{
    let mut r: Vec<&'a T> = Vec::new();
    let mut i: usize = 0;
    while i < entries.len()
        invariant
            i <= entries@.len(),
            keys_unique(rows@),
            r@.map_values(|x: &T| *x) == user_rows(entries@.subrange(0, i as int), rows@, user),
        decreases entries@.len() - i,
    {
        assert(entries@.subrange(0, i + 1).drop_last() =~= entries@.subrange(0, i as int));
        let ghost prev = r@;
        if entries[i].user_id == user {
            match get(rows, &entries[i].entity) {
                Some(x) => {
                    r.push(x);
                    assert(r@.map_values(|x: &T| *x) =~= prev.map_values(|x: &T| *x).push(*x));
                },
                None => {},
            }
        }
        i = i + 1;
    }
    assert(entries@.subrange(0, entries@.len() as int) =~= entries@);
    r
}

fn find_marks(t: &Vec<UserMarks>, user: i32) -> (r: Option<usize>)
    requires
        marks_unique(t@),
    ensures
        r matches Some(i) ==> i < t@.len() && marks_of(t@, user) == Some(t@[i as int]),
        r is None ==> marks_of(t@, user) is None,
{
    let mut i: usize = 0;
    while i < t.len()
        invariant
            i <= t@.len(),
            marks_unique(t@),
            forall|j: int| 0 <= j < i ==> t@[j].matriculation_number != user,
        decreases t@.len() - i,
    {
        if t[i].matriculation_number == user {
            proof {
                let c = choose|c: int| 0 <= c < t@.len() && #[trigger] t@[c].matriculation_number == user;
                assert(c >= i);
                if c > i {
                    assert(t@[i as int].matriculation_number != t@[c].matriculation_number);
                }
            }
            return Some(i);
        }
        i = i + 1;
    }
    None
}

fn add_entry(t: &mut Vec<UserEntry>, user: i32, entity: Vec<u8>)
    ensures
        has_entry(final(t)@, user, entity@),
        forall|u: i32, e: Seq<u8>| has_entry(old(t)@, u, e) ==> has_entry(final(t)@, u, e),
        forall|u: i32, e: Seq<u8>| has_entry(final(t)@, u, e) ==> has_entry(old(t)@, u, e) || (u == user && e == entity@),
{
    let mut i: usize = 0;
    while i < t.len()
        invariant
            i <= t@.len(),
        decreases t@.len() - i,
    {
        if t[i].user_id == user && bytes_eq(&t[i].entity, &entity) {
            assert(t@[i as int].user_id == user && t@[i as int].entity@ == entity@);
            return;
        }
        i = i + 1;
    }
    let ghost before = t@;
    let ghost ev = entity@;
    t.push(UserEntry { user_id: user, entity });
    proof {
        assert(t@[before.len() as int].user_id == user && t@[before.len() as int].entity@ == ev);
        assert forall|u: i32, e: Seq<u8>| has_entry(before, u, e) implies has_entry(t@, u, e) by {
            let w = choose|w: int| 0 <= w < before.len() && #[trigger] before[w].user_id == u && before[w].entity@ == e;
            assert(t@[w] == before[w]);
        }
        assert forall|u: i32, e: Seq<u8>| has_entry(t@, u, e) implies has_entry(before, u, e) || (u == user && e == ev) by {
            let w = choose|w: int| 0 <= w < t@.len() && #[trigger] t@[w].user_id == u && t@[w].entity@ == e;
            if w < before.len() {
                assert(before[w] == t@[w]);
            }
        }
    }
}

fn add_entries(t: &mut Vec<UserEntry>, user: i32, ids: Vec<Vec<u8>>)
    ensures
        forall|j: int| 0 <= j < ids@.len() ==> has_entry(final(t)@, user, #[trigger] ids@[j]@),
        forall|u: i32, e: Seq<u8>| has_entry(old(t)@, u, e) ==> has_entry(final(t)@, u, e),
{
    let ghost all = ids@;
    let total = ids.len();
    let mut ids = ids;
    let mut rest: Vec<Vec<u8>> = Vec::new();
    while ids.len() > 0
        invariant
            rest@ + ids@.reverse() == all.reverse(),
        decreases ids@.len(),
    {
        let x = ids.pop().unwrap();
        proof {
            assert(rest@.push(x) + ids@.reverse() =~= all.reverse());
        }
        rest.push(x);
    }
    assert(rest@ =~= all.reverse());
    let mut n: usize = 0;
    while rest.len() > 0
        invariant
            rest@.len() + n == all.len(),
            all.len() == total,
            rest@ == all.subrange(n as int, all.len() as int).reverse(),
            forall|j: int| 0 <= j < n ==> has_entry(t@, user, #[trigger] all[j]@),
            forall|u: i32, e: Seq<u8>| has_entry(old(t)@, u, e) ==> has_entry(t@, u, e),
        decreases rest@.len(),
    {
        let x = rest.pop().unwrap();
        proof {
            assert(x == all[n as int]);
            assert(rest@ =~= all.subrange(n + 1, all.len() as int).reverse());
        }
        add_entry(t, user, x);
        n = n + 1;
    }
}

/// Sets one of the user's marks to `now`: modules for `which == 0`, courses for 1, exams otherwise.
fn mark_checked(t: &mut Vec<UserMarks>, user: i32, which: u8, now: i64)
    requires
        marks_unique(old(t)@),
    ensures
        marks_unique(final(t)@),
        marks_of(final(t)@, user) matches Some(mk) && (if which == 0 {
            mk.user_modules_last_checked == Some(now)
        } else if which == 1 {
            mk.user_courses_last_checked == Some(now)
        } else {
            mk.user_exams_last_checked == Some(now)
        }),
{
    match find_marks(t, user) {
        Some(i) => {
            let ghost before = t@;
            if which == 0 {
                t[i].user_modules_last_checked = Some(now);
            } else if which == 1 {
                t[i].user_courses_last_checked = Some(now);
            } else {
                t[i].user_exams_last_checked = Some(now);
            }
            proof {
                assert(t@[i as int].matriculation_number == user);
                let c = choose|c: int| 0 <= c < t@.len() && #[trigger] t@[c].matriculation_number == user;
                let d = choose|c: int| 0 <= c < before.len() && #[trigger] before[c].matriculation_number == user;
                assert(before[d] == before[i as int]);
                if c != i {
                    assert(t@[c] == before[c]);
                }
                if c != i {
                    if c < i {
                        assert(before[c].matriculation_number != before[i as int].matriculation_number);
                    } else {
                        assert(before[i as int].matriculation_number != before[c].matriculation_number);
                    }
                }
                assert forall|a: int, b: int| 0 <= a < b < t@.len() implies #[trigger] t@[a].matriculation_number
                    != #[trigger] t@[b].matriculation_number by {
                    assert(before[a].matriculation_number != before[b].matriculation_number);
                }
            }
        },
        None => {
            let ghost before = t@;
            t.push(UserMarks {
                matriculation_number: user,
                user_modules_last_checked: if which == 0 { Some(now) } else { None },
                user_courses_last_checked: if which == 1 { Some(now) } else { None },
                user_exams_last_checked: if which != 0 && which != 1 { Some(now) } else { None },
            });
            proof {
                assert(t@[before.len() as int].matriculation_number == user);
                assert forall|a: int, b: int| 0 <= a < b < t@.len() implies #[trigger] t@[a].matriculation_number
                    != #[trigger] t@[b].matriculation_number by {
                    if b < before.len() {
                        assert(before[a].matriculation_number != before[b].matriculation_number);
                    } else {
                        assert(before[a].matriculation_number != user);
                    }
                }
            }
        },
    }
}

fn same_slot_exec(a: &CourseEvent, b: &CourseEvent) -> (r: bool)
    ensures
        r == same_slot(*a, *b),
{
    bytes_eq(&a.course, &b.course) && a.timestamp_start == b.timestamp_start && a.timestamp_end
        == b.timestamp_end && a.room == b.room
}

/// Writes one schedule entry: a known slot takes the new teachers, a new slot is added.
fn write_event(t: &mut Vec<CourseEvent>, e: CourseEvent)
    requires
        slots_unique(old(t)@),
    ensures
        slots_unique(final(t)@),
        final(t)@ == event_written(old(t)@, e),
{
    let mut i: usize = 0;
    while i < t.len()
        invariant
            i <= t@.len(),
            t@ == old(t)@,
            slots_unique(t@),
            forall|j: int| 0 <= j < i ==> !same_slot(#[trigger] t@[j], e),
        decreases t@.len() - i,
    {
        if same_slot_exec(&t[i], &e) {
            proof {
                let c = choose|c: int| 0 <= c < t@.len() && same_slot(#[trigger] t@[c], e);
                if c != i {
                    if c < i {
                        assert(!same_slot(t@[c], e));
                    } else {
                        assert(!same_slot(t@[i as int], t@[c]));
                    }
                }
                assert(c == i as int);
            }
            let ghost before = t@;
            t[i].teachers = e.teachers;
            proof {
                assert forall|a: int, b: int| 0 <= a < b < t@.len() implies !same_slot(
                    #[trigger] t@[a],
                    #[trigger] t@[b],
                ) by {
                    assert(!same_slot(before[a], before[b]));
                }
                assert(t@ =~= event_written(before, e));
            }
            return;
        }
        i = i + 1;
    }
    let ghost before = t@;
    assert(!has_slot(before, e));
    t.push(e);
    proof {
        assert forall|a: int, b: int| 0 <= a < b < t@.len() implies !same_slot(
            #[trigger] t@[a],
            #[trigger] t@[b],
        ) by {
            if b < before.len() {
                assert(!same_slot(before[a], before[b]));
            } else {
                assert(!same_slot(before[a], e));
            }
        }
    }
}

/// Writes each schedule entry of `es` in order.
fn write_events(t: &mut Vec<CourseEvent>, es: Vec<CourseEvent>)
    requires
        slots_unique(old(t)@),
    ensures
        slots_unique(final(t)@),
        final(t)@ == events_written(old(t)@, es@),
{
    let ghost start = t@;
    let ghost all = es@;
    let mut rest: Vec<CourseEvent> = Vec::new();
    let mut es = es;
    while es.len() > 0
        invariant
            rest@ + es@.reverse() == all.reverse(),
        decreases es@.len(),
    {
        let x = es.pop().unwrap();
        proof {
            assert(rest@.push(x) + es@.reverse() =~= all.reverse());
        }
        rest.push(x);
    }
    assert(rest@ =~= all.reverse());
    let ghost mut n: int = 0;
    while rest.len() > 0
        invariant
            slots_unique(t@),
            rest@.len() + n == all.len(),
            0 <= n <= all.len(),
            rest@ == all.subrange(n, all.len() as int).reverse(),
            t@ == events_written(start, all.subrange(0, n)),
        decreases rest@.len(),
    {
        let x = rest.pop().unwrap();
        proof {
            assert(x == all[n]);
            assert(rest@ =~= all.subrange(n + 1, all.len() as int).reverse());
            assert(all.subrange(0, n + 1).drop_last() =~= all.subrange(0, n));
        }
        write_event(t, x);
        proof {
            n = n + 1;
        }
    }
    assert(all.subrange(0, all.len() as int) =~= all);
}

fn groups_of<'a>(t: &'a Vec<CourseGroup>, k: &[u8]) -> (r: Vec<&'a CourseGroup>)
    ensures
        r@.map_values(|x: &CourseGroup| *x) == kept(t@, group_of(k@)),
{
    let mut r: Vec<&'a CourseGroup> = Vec::new();
    let mut i: usize = 0;
    while i < t.len()
        invariant
            i <= t@.len(),
            r@.map_values(|x: &CourseGroup| *x) == kept(t@.subrange(0, i as int), group_of(k@)),
        decreases t@.len() - i,
    {
        assert(t@.subrange(0, i + 1).drop_last() =~= t@.subrange(0, i as int));
        let ghost prev = r@;
        if bytes_eq(&t[i].course, k) {
            r.push(&t[i]);
            assert(r@.map_values(|x: &CourseGroup| *x) =~= prev.map_values(|x: &CourseGroup| *x).push(t@[i as int]));
        }
        i = i + 1;
    }
    assert(t@.subrange(0, t@.len() as int) =~= t@);
    r
}

fn events_of<'a>(t: &'a Vec<CourseEvent>, k: &[u8]) -> (r: Vec<&'a CourseEvent>)
    ensures
        r@.map_values(|x: &CourseEvent| *x) == kept(t@, event_of(k@)),
{
    let mut r: Vec<&'a CourseEvent> = Vec::new();
    let mut i: usize = 0;
    while i < t.len()
        invariant
            i <= t@.len(),
            r@.map_values(|x: &CourseEvent| *x) == kept(t@.subrange(0, i as int), event_of(k@)),
        decreases t@.len() - i,
    {
        assert(t@.subrange(0, i + 1).drop_last() =~= t@.subrange(0, i as int));
        let ghost prev = r@;
        if bytes_eq(&t[i].course, k) {
            r.push(&t[i]);
            assert(r@.map_values(|x: &CourseEvent| *x) =~= prev.map_values(|x: &CourseEvent| *x).push(t@[i as int]));
        }
        i = i + 1;
    }
    assert(t@.subrange(0, t@.len() as int) =~= t@);
    r
}

fn children_of<'a>(t: &'a Vec<ModuleMenu>, k: &[u8]) -> (r: Vec<&'a ModuleMenu>)
    ensures
        r@.map_values(|x: &ModuleMenu| *x) == kept(t@, child_of(k@)),
{
    let mut r: Vec<&'a ModuleMenu> = Vec::new();
    let mut i: usize = 0;
    while i < t.len()
        invariant
            i <= t@.len(),
            r@.map_values(|x: &ModuleMenu| *x) == kept(t@.subrange(0, i as int), child_of(k@)),
        decreases t@.len() - i,
    {
        assert(t@.subrange(0, i + 1).drop_last() =~= t@.subrange(0, i as int));
        let ghost prev = r@;
        let is_child = match &t[i].parent {
            Some(p) => bytes_eq(p, k),
            None => false,
        };
        if is_child {
            r.push(&t[i]);
            assert(r@.map_values(|x: &ModuleMenu| *x) =~= prev.map_values(|x: &ModuleMenu| *x).push(t@[i as int]));
        }
        i = i + 1;
    }
    assert(t@.subrange(0, t@.len() as int) =~= t@);
    r
}

} // verus!
