use vstd::prelude::*;

use crate::validation::has_min_length;

verus! {

/// The languages that courses and books can be in.
#[derive(Debug, Clone, Copy, PartialEq, Eq, Structural)]
pub enum Language {
    De,
    En,
    Fr,
    Ru,
    Zh,
}

/// The display name of a language.
pub open spec fn language_name(l: Language) -> Seq<char> {
    match l {
        Language::De => seq!['D', 'e'],
        Language::En => seq!['E', 'n'],
        Language::Fr => seq!['F', 'r'],
        Language::Ru => seq!['R', 'u'],
        Language::Zh => seq!['Z', 'h'],
    }
}

/// Every language, in declaration order.
pub open spec fn all_languages() -> Seq<Language> {
    seq![Language::De, Language::En, Language::Fr, Language::Ru, Language::Zh]
}

impl Language {
    /// Every language, in declaration order.
    pub fn all() -> (r: Vec<Language>)
        ensures
            r@ == all_languages(),
    {
        let r = vec![Language::De, Language::En, Language::Fr, Language::Ru, Language::Zh];
        assert(r@ == all_languages());
        r
    }

    /// The display name of the language.
    pub fn name(&self) -> (r: String)
        ensures
            r@ == language_name(*self),
    {
        let s = match self {
            Language::De => "De",
            Language::En => "En",
            Language::Fr => "Fr",
            Language::Ru => "Ru",
            Language::Zh => "Zh",
        };
        proof {
            reveal_strlit("De");
            reveal_strlit("En");
            reveal_strlit("Fr");
            reveal_strlit("Ru");
            reveal_strlit("Zh");
        }
        s.to_owned()
    }
}

/// The names of every language, in declaration order.
pub fn get_languages() -> (r: Vec<String>)
    ensures
        r@.len() == all_languages().len(),
        forall|i: int| 0 <= i < r@.len() ==> #[trigger] r@[i]@ == language_name(all_languages()[i]),
{
    let all = Language::all();
    let mut names: Vec<String> = Vec::new();
    let mut i: usize = 0;
    while i < all.len()
        invariant
            all@ == all_languages(),
            i <= all@.len(),
            names@.len() == i,
            forall|j: int| 0 <= j < i ==> #[trigger] names@[j]@ == language_name(all@[j]),
        decreases all@.len() - i,
    {
        names.push(all[i].name());
        i = i + 1;
    }
    names
}

/// A course as shown to a user, with whether that user owns it.
#[derive(Debug, Clone)]
pub struct CourseOut {
    pub id: i32,
    pub title: String,
    pub language: Language,
    pub is_owner: bool,
}

/// Request to create a course.
#[derive(Debug, Clone)]
pub struct CreateCourse {
    pub title: String,
    pub language: Language,
}

/// Request to rewrite a course.
#[derive(Debug, Clone)]
pub struct UpdateCourse {
    pub id: i32,
    pub title: String,
    pub language: Language,
}

/// Request to create a lesson inside a course.
#[derive(Debug, Clone)]
pub struct CreateLesson {
    pub title: String,
    pub cover_path: Option<String>,
    pub subject: Option<String>,
    pub course_id: i32,
}

/// Request to rewrite a lesson.
#[derive(Debug, Clone)]
pub struct UpdateLesson {
    pub id: i32,
    pub title: String,
    pub cover_path: Option<String>,
    pub subject: Option<String>,
}

/// Request to register an uploaded book.
#[derive(Debug, Clone)]
pub struct CreateBook {
    pub title: String,
    pub language: Language,
    pub filename: String,
    pub cover_path: Option<String>,
    pub author: Option<String>,
    pub subject: Option<String>,
}

/// Request to rewrite a book's details and reading progress.
#[derive(Debug, Clone)]
pub struct UpdateBook {
    pub id: i32,
    pub title: String,
    pub language: Language,
    pub cover_path: Option<String>,
    pub author: Option<String>,
    pub subject: Option<String>,
    pub progress: i32,
}

/// Query of the course listing: only the user's subscriptions, or all.
#[derive(Debug, Clone, Copy)]
pub struct GetAllCoursesFilter {
    pub subscriptions: Option<bool>,
}

/// Query of the lesson listing: the lessons of one course, or all.
#[derive(Debug, Clone, Copy)]
pub struct GetAllLessonsFilter {
    pub course: Option<i32>,
}

/// Query that turns a book to another page.
#[derive(Debug, Clone, Copy)]
pub struct ChangePageOptions {
    pub page: i32,
}

/// What a page change does to a book.
#[derive(Debug, Clone, Copy, PartialEq, Eq, Structural)]
pub enum PageChange {
    /// The page is past either end: the book counts as read through and the
    /// request is refused.
    Finished,
    /// The book is now at `page`, with `progress` percent read.
    Turned { page: i32, progress: i32 },
}

impl CourseOut {
    /// The title is not empty.
    pub fn validate(&self) -> (r: bool)
        ensures
            r == (self.title@.len() >= 1),
    {
        has_min_length(&self.title, 1)
    }
}

impl CreateCourse {
    /// The title is not empty.
    pub fn validate(&self) -> (r: bool)
        ensures
            r == (self.title@.len() >= 1),
    {
        has_min_length(&self.title, 1)
    }
}

impl UpdateCourse {
    /// The title is not empty.
    pub fn validate(&self) -> (r: bool)
        ensures
            r == (self.title@.len() >= 1),
    {
        has_min_length(&self.title, 1)
    }
}

impl CreateLesson {
    /// The title is not empty.
    pub fn validate(&self) -> (r: bool)
        ensures
            r == (self.title@.len() >= 1),
    {
        has_min_length(&self.title, 1)
    }
}

impl UpdateLesson {
    /// The title is not empty.
    pub fn validate(&self) -> (r: bool)
        ensures
            r == (self.title@.len() >= 1),
    {
        has_min_length(&self.title, 1)
    }
}

impl GetAllCoursesFilter {
    /// Whether only the user's subscriptions are asked for; by default not.
    pub fn only_subscriptions(&self) -> (r: bool)
        ensures
            r == (self.subscriptions == Some(true)),
    {
        match self.subscriptions {
            Some(b) => b,
            None => false,
        }
    }
}

impl ChangePageOptions {
    /// The effect of turning to `self.page` in a book of `num_pages` pages:
    /// a page outside `0 .. num_pages` finishes the book; any other is
    /// taken, with the percentage of pages before it, rounded down.
    pub fn page_change(&self, num_pages: i32) -> (r: PageChange)
        ensures
            r == if self.page < 0 || self.page >= num_pages {
                PageChange::Finished
            } else {
                PageChange::Turned {
                    page: self.page,
                    progress: (self.page as int * 100 / num_pages as int) as i32,
                }
            },
    {
        if self.page < 0 || self.page >= num_pages {
            return PageChange::Finished;
        }
        let scaled: i64 = self.page as i64 * 100;
        let progress: i64 = scaled / (num_pages as i64);
        assert(progress <= 100) by (nonlinear_arith)
            requires
                0 <= self.page < num_pages,
                scaled == self.page * 100,
                progress == scaled / (num_pages as i64),
        ;
        PageChange::Turned { page: self.page, progress: progress as i32 }
    }
}

} // verus!
