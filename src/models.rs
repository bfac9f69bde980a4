use vstd::prelude::*;

use crate::datetime::DateTime;
use crate::store::Record;

verus! {

/// A module of the course catalogue.
#[derive(Debug)]
pub struct Module {
    pub tucan_id: Vec<u8>,
    pub tucan_last_checked: i64,
    pub title: String,
    pub module_id: String,
    pub credits: Option<i32>,
    pub content: String,
    pub done: bool,
}

/// A course, the unit that holds schedule entries.
#[derive(Debug)]
pub struct Course {
    pub tucan_id: Vec<u8>,
    pub tucan_last_checked: i64,
    pub title: String,
    pub course_id: String,
    pub sws: i16,
    pub content: String,
    pub done: bool,
}

/// A section of a course with schedule entries of its own.
#[derive(Debug)]
pub struct CourseGroup {
    pub tucan_id: Vec<u8>,
    pub course: Vec<u8>,
    pub title: String,
    pub done: bool,
}

/// A schedule entry of a course or of a course group (`course` is the owner's identifier).
#[derive(Debug)]
pub struct CourseEvent {
    pub course: Vec<u8>,
    pub timestamp_start: DateTime,
    pub timestamp_end: DateTime,
    pub room: String,
    pub teachers: String,
}

/// An exam, with its registration windows where they are known.
#[derive(Debug)]
pub struct Exam {
    pub tucan_id: Vec<u8>,
    pub exam_type: String,
    pub semester: String,
    pub exam_time_start: Option<DateTime>,
    pub exam_time_end: Option<DateTime>,
    pub registration_start: Option<DateTime>,
    pub registration_end: Option<DateTime>,
    pub unregistration_start: Option<DateTime>,
    pub unregistration_end: Option<DateTime>,
    pub examinator: Option<String>,
    pub room: Option<String>,
    pub done: bool,
}

/// A node of the registration tree.
#[derive(Debug)]
pub struct ModuleMenu {
    pub tucan_id: Vec<u8>,
    pub tucan_last_checked: i64,
    pub name: String,
    pub done: bool,
    pub parent: Option<Vec<u8>>,
}

/// A module listed under a node of the registration tree.
#[derive(Debug)]
pub struct ModuleMenuEntryModule {
    pub module_menu_id: Vec<u8>,
    pub module_id: Vec<u8>,
}

/// A course that belongs to a module.
#[derive(Debug)]
pub struct ModuleCourse {
    pub module: Vec<u8>,
    pub course: Vec<u8>,
}

impl Record for Module {
    open spec fn key(&self) -> Seq<u8> {
        self.tucan_id@
    }

    open spec fn is_done(&self) -> bool {
        self.done
    }

    open spec fn merged(&self, new: Self) -> Self {
        Module { done: self.done || new.done, ..new }
    }

    proof fn lemma_merged(&self, new: Self) {
    }

    fn key_of(&self) -> (r: &[u8]) {
        self.tucan_id.as_slice()
    }

    fn merge(&mut self, new: Self) {
        let done = self.done || new.done;
        *self = Module { done, ..new };
    }
}

impl Record for Course {
    open spec fn key(&self) -> Seq<u8> {
        self.tucan_id@
    }

    open spec fn is_done(&self) -> bool {
        self.done
    }

    open spec fn merged(&self, new: Self) -> Self {
        Course { done: self.done || new.done, ..new }
    }

    proof fn lemma_merged(&self, new: Self) {
    }

    fn key_of(&self) -> (r: &[u8]) {
        self.tucan_id.as_slice()
    }

    fn merge(&mut self, new: Self) {
        let done = self.done || new.done;
        *self = Course { done, ..new };
    }
}

impl Record for CourseGroup {
    open spec fn key(&self) -> Seq<u8> {
        self.tucan_id@
    }

    open spec fn is_done(&self) -> bool {
        self.done
    }

    open spec fn merged(&self, new: Self) -> Self {
        CourseGroup { done: self.done || new.done, ..new }
    }

    proof fn lemma_merged(&self, new: Self) {
    }

    fn key_of(&self) -> (r: &[u8]) {
        self.tucan_id.as_slice()
    }

    fn merge(&mut self, new: Self) {
        let done = self.done || new.done;
        *self = CourseGroup { done, ..new };
    }
}

impl Record for Exam {
    open spec fn key(&self) -> Seq<u8> {
        self.tucan_id@
    }

    open spec fn is_done(&self) -> bool {
        self.done
    }

    open spec fn merged(&self, new: Self) -> Self {
        Exam { done: self.done || new.done, ..new }
    }

    proof fn lemma_merged(&self, new: Self) {
    }

    fn key_of(&self) -> (r: &[u8]) {
        self.tucan_id.as_slice()
    }

    fn merge(&mut self, new: Self) {
        let done = self.done || new.done;
        *self = Exam { done, ..new };
    }
}

impl Record for ModuleMenu {
    open spec fn key(&self) -> Seq<u8> {
        self.tucan_id@
    }

    open spec fn is_done(&self) -> bool {
        self.done
    }

    /// A parent is set at most once: a write fills the parent only where the row has none. A
    /// complete write takes the new name and time; a stub leaves the row as it is otherwise.
    open spec fn merged(&self, new: Self) -> Self {
        let parent = if self.parent is Some {
            self.parent
        } else {
            new.parent
        };
        if new.done {
            ModuleMenu { done: true, parent, ..new }
        } else {
            ModuleMenu { parent, ..*self }
        }
    }

    proof fn lemma_merged(&self, new: Self) {
    }

    fn key_of(&self) -> (r: &[u8]) {
        self.tucan_id.as_slice()
    }

    fn merge(&mut self, new: Self) {
        let keep_parent = self.parent.is_some();
        let ModuleMenu { tucan_id, tucan_last_checked, name, done, parent } = new;
        if done {
            let parent = if keep_parent {
                self.parent.take()
            } else {
                parent
            };
            *self = ModuleMenu { tucan_id, tucan_last_checked, name, done: true, parent };
        } else if !keep_parent {
            self.parent = parent;
        }
    }
}

impl crate::store::Link for ModuleCourse {
    open spec fn ends(&self) -> (Seq<u8>, Seq<u8>) {
        (self.module@, self.course@)
    }

    fn first_of(&self) -> (r: &[u8]) {
        self.module.as_slice()
    }

    fn second_of(&self) -> (r: &[u8]) {
        self.course.as_slice()
    }
}

impl crate::store::Link for ModuleMenuEntryModule {
    open spec fn ends(&self) -> (Seq<u8>, Seq<u8>) {
        (self.module_menu_id@, self.module_id@)
    }

    fn first_of(&self) -> (r: &[u8]) {
        self.module_menu_id.as_slice()
    }

    fn second_of(&self) -> (r: &[u8]) {
        self.module_id.as_slice()
    }
}

/// An exam that belongs to a module.
#[derive(Debug)]
pub struct ModuleExam {
    pub module_id: Vec<u8>,
    pub exam: Vec<u8>,
}

/// An exam that belongs to a course.
#[derive(Debug)]
pub struct CourseExam {
    pub course_id: Vec<u8>,
    pub exam: Vec<u8>,
}

impl crate::store::Link for ModuleExam {
    open spec fn ends(&self) -> (Seq<u8>, Seq<u8>) {
        (self.exam@, self.module_id@)
    }

    fn first_of(&self) -> (r: &[u8]) {
        self.exam.as_slice()
    }

    fn second_of(&self) -> (r: &[u8]) {
        self.module_id.as_slice()
    }
}

impl crate::store::Link for CourseExam {
    open spec fn ends(&self) -> (Seq<u8>, Seq<u8>) {
        (self.exam@, self.course_id@)
    }

    fn first_of(&self) -> (r: &[u8]) {
        self.exam.as_slice()
    }

    fn second_of(&self) -> (r: &[u8]) {
        self.course_id.as_slice()
    }
}

/// An entity that belongs to the profile of a user, by matriculation number.
#[derive(Debug)]
pub struct UserEntry {
    pub user_id: i32,
    pub entity: Vec<u8>,
}

/// When each of a user's collections was last fetched as a whole, where it was.
#[derive(Debug)]
pub struct UserMarks {
    pub matriculation_number: i32,
    pub user_modules_last_checked: Option<i64>,
    pub user_courses_last_checked: Option<i64>,
    pub user_exams_last_checked: Option<i64>,
}

} // verus!
