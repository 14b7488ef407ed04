//! Task records and the decisions the views make about them: status,
//! overdue marking, the status toggle, and the fields of the new-task form.

use vstd::prelude::*;
use vstd::string::StringExecFns;
use crate::text::{chars_less, lemma_chars_less_asymmetric, lemma_chars_less_irreflexive,
    lemma_chars_less_transitive, lemma_split_concat, lemma_split_without_sep, split_on, str_equal, str_less};

verus! {

/// A task as the user wrote it: a title, a note and its recurrence rule.
#[derive(Clone, Debug)]
pub struct TaskTemplate {
    pub id: i32,
    pub title: String,
    pub note: String,
    pub recurrence: String,
}

/// One due date of a task template, with its status (`ongoing` or
/// `finished`).
#[derive(Clone, Debug)]
pub struct TaskInstance {
    pub id: i32,
    pub template_id: i32,
    pub due_date: String,
    pub status: String,
}

/// A status that marks a task as done.
pub open spec fn is_finished_status(status: Seq<char>) -> bool {
    status == "finished"@
}

/// A task is overdue when it is not done and its due date comes before today
/// (dates compare as `%Y-%m-%d` text).
pub open spec fn is_overdue_spec(status: Seq<char>, due_date: Seq<char>, today: Seq<char>) -> bool {
    !is_finished_status(status) && chars_less(due_date, today)
}

impl TaskInstance {
    /// Whether the task is done.
    pub fn is_finished(&self) -> (r: bool)
        ensures
            r == is_finished_status(self.status@),
    {
        str_equal(self.status.as_str(), "finished")
    }

    /// Whether the task is overdue on the day written `today`.
    pub fn is_overdue(&self, today: &str) -> (r: bool)
        ensures
            r == is_overdue_spec(self.status@, self.due_date@, today@),
    {
        !self.is_finished() && str_less(self.due_date.as_str(), today)
    }
}

/// The status a task takes when its check mark is pressed: a finished task
/// goes back to `ongoing`, any other becomes `finished`.
pub open spec fn toggled_status_spec(status: Seq<char>) -> Seq<char> {
    if is_finished_status(status) {
        "ongoing"@
    } else {
        "finished"@
    }
}

/// The status a task takes when its check mark is pressed.
pub fn toggled_status(status: &str) -> (r: &'static str)
    ensures
        r@ == toggled_status_spec(status@),
{
    if str_equal(status, "finished") {
        "ongoing"
    } else {
        "finished"
    }
}

/// How a task card is shown.
#[derive(Clone, Copy, Debug, PartialEq, Eq, Structural)]
pub enum CardTone {
    Finished,
    Overdue,
    Pending,
}

/// The tone of a task card on the day written `today`.
pub open spec fn card_tone_spec(status: Seq<char>, due_date: Seq<char>, today: Seq<char>) -> CardTone {
    if is_finished_status(status) {
        CardTone::Finished
    } else if chars_less(due_date, today) {
        CardTone::Overdue
    } else {
        CardTone::Pending
    }
}

/// The tone of a task card: finished, overdue or pending.
pub fn card_tone(instance: &TaskInstance, today: &str) -> (r: CardTone)
    ensures
        r == card_tone_spec(instance.status@, instance.due_date@, today@),
{
    if instance.is_finished() {
        CardTone::Finished
    } else if instance.is_overdue(today) {
        CardTone::Overdue
    } else {
        CardTone::Pending
    }
}

// ---------------------------------------------------------------------------
// The new-task form
// ---------------------------------------------------------------------------

/// The rule text that the form's fields make: `days:N`, `months:N`,
/// `nth:W:Day`, or `none` for any other mode.
pub open spec fn form_rule(mode: Seq<char>, num: Seq<char>, week: Seq<char>, day: Seq<char>) -> Seq<char> {
    if mode == "days"@ {
        "days:"@ + num
    } else if mode == "months"@ {
        "months:"@ + num
    } else if mode == "nth"@ {
        "nth:"@ + week + ":"@ + day
    } else {
        "none"@
    }
}

/// The recurrence rule that the form's fields make.
pub fn recurrence_rule(mode: &str, custom_num: &str, nth_week: &str, nth_day: &str) -> (r: String)
    ensures
        r@ == form_rule(mode@, custom_num@, nth_week@, nth_day@),
{
    if str_equal(mode, "days") {
        let mut r = "days:".to_owned();
        r.append(custom_num);
        r
    } else if str_equal(mode, "months") {
        let mut r = "months:".to_owned();
        r.append(custom_num);
        r
    } else if str_equal(mode, "nth") {
        let mut r = "nth:".to_owned();
        r.append(nth_week);
        r.append(":");
        r.append(nth_day);
        r
    } else {
        "none".to_owned()
    }
}

/// Whether the form may be saved: a title and a start date are given.
pub fn can_save_task(title: &str, due_date: &str) -> (r: bool)
    ensures
        r == (title@.len() > 0 && due_date@.len() > 0),
{
    !title.is_empty() && !due_date.is_empty()
}

/// The unit shown beside the interval field.
pub fn duration_label(mode: &str) -> (r: &'static str)
    ensures
        r@ == (if mode@ == "days"@ { "Days"@ } else { "Months"@ }),
{
    if str_equal(mode, "days") {
        "Days"
    } else {
        "Months"
    }
}

/// Whether the monthly database maintenance runs on this day of the month
/// (the 16th).
pub fn maintenance_due(day_of_month: u32) -> (r: bool)
    ensures
        r == (day_of_month == 16),
{
    day_of_month == 16
}

/// The views the app switches between.
#[derive(Clone, Copy, Debug, PartialEq, Eq, Structural)]
pub enum Tab {
    Calendar,
    List,
    Recurring,
    AddTask,
}

/// The style of a tab button: highlighted when it is the current tab.
pub fn tab_button_class(current: Tab, tab: Tab) -> (r: &'static str)
    ensures
        r@ == (if current == tab { "bg-blue-600 text-white"@ } else { "bg-slate-800"@ }),
{
    if current == tab {
        "bg-blue-600 text-white"
    } else {
        "bg-slate-800"
    }
}

// ---------------------------------------------------------------------------
// Laws
// ---------------------------------------------------------------------------

/// Pressing the check mark twice brings a finished or ongoing task back to
/// its status.
pub proof fn law_toggle_twice(status: Seq<char>)
    requires
        status == "finished"@ || status == "ongoing"@,
    ensures
        toggled_status_spec(toggled_status_spec(status)) == status,
{
    reveal_strlit("finished");
    reveal_strlit("ongoing");
    assert("finished"@ != "ongoing"@) by {
        assert("finished"@[0] != "ongoing"@[0]);
    }
}

/// A finished task is never overdue.
pub proof fn law_finished_never_overdue(status: Seq<char>, due_date: Seq<char>, today: Seq<char>)
    requires
        is_finished_status(status),
    ensures
        !is_overdue_spec(status, due_date, today),
        card_tone_spec(status, due_date, today) == CardTone::Finished,
{
}

/// A task card is overdue exactly when the task is.
pub proof fn law_card_overdue_iff(status: Seq<char>, due_date: Seq<char>, today: Seq<char>)
    ensures
        (card_tone_spec(status, due_date, today) == CardTone::Overdue) == is_overdue_spec(status, due_date, today),
{
}

/// The rule the form makes for `days` or `months` splits into the mode and
/// the interval text, and the one for `nth` into the mode, the week and the
/// day, where those fields hold no `:`.
pub proof fn law_form_rule_parts(mode: Seq<char>, num: Seq<char>, week: Seq<char>, day: Seq<char>)
    requires
        !num.contains(':'),
        !week.contains(':'),
        !day.contains(':'),
    ensures
        mode == "days"@ ==> split_on(form_rule(mode, num, week, day), ':') == seq!["days"@, num],
        mode == "months"@ ==> split_on(form_rule(mode, num, week, day), ':') == seq!["months"@, num],
        mode == "nth"@ ==> split_on(form_rule(mode, num, week, day), ':') == seq!["nth"@, week, day],
        mode != "days"@ && mode != "months"@ && mode != "nth"@ ==> form_rule(mode, num, week, day) == "none"@,
{
    reveal_strlit("days");
    reveal_strlit("months");
    reveal_strlit("nth");
    reveal_strlit("days:");
    reveal_strlit("months:");
    reveal_strlit("nth:");
    reveal_strlit(":");
    let days = "days"@;
    let months = "months"@;
    let nth = "nth"@;
    assert(!days.contains(':'));
    assert(!months.contains(':'));
    assert(!nth.contains(':'));
    lemma_split_without_sep(days, ':');
    lemma_split_without_sep(months, ':');
    lemma_split_without_sep(nth, ':');
    lemma_split_without_sep(num, ':');
    lemma_split_without_sep(week, ':');
    lemma_split_without_sep(day, ':');
    assert("days:"@ + num =~= days + seq![':'] + num);
    lemma_split_concat(days, num, ':');
    assert("months:"@ + num =~= months + seq![':'] + num);
    lemma_split_concat(months, num, ':');
    assert("nth:"@ + week + ":"@ + day =~= (nth + seq![':'] + week) + seq![':'] + day);
    lemma_split_concat(nth, week, ':');
    lemma_split_concat(nth + seq![':'] + week, day, ':');
    assert(seq![days] + seq![num] =~= seq![days, num]);
    assert(seq![months] + seq![num] =~= seq![months, num]);
    assert(seq![nth] + seq![week] + seq![day] =~= seq![nth, week, day]);
}


/// A task that is not finished is overdue exactly when its whole due-date
/// text comes before the whole text of today (so a task due in December of
/// one year is overdue in January of the next); a finished task never is.
/// Its card is marked finished, overdue or pending accordingly.
pub proof fn law_overdue_by_whole_date(status: Seq<char>, due_date: Seq<char>, today: Seq<char>)
    ensures
        status != "finished"@ && chars_less(due_date, today) ==> is_overdue_spec(status, due_date, today),
        status != "finished"@ && !chars_less(due_date, today) ==> !is_overdue_spec(status, due_date, today),
        status == "finished"@ ==> !is_overdue_spec(status, due_date, today),
        status == "finished"@ ==> card_tone_spec(status, due_date, today) == CardTone::Finished,
        status != "finished"@ && chars_less(due_date, today) ==> card_tone_spec(status, due_date, today)
            == CardTone::Overdue,
        status != "finished"@ && !chars_less(due_date, today) ==> card_tone_spec(status, due_date, today)
            == CardTone::Pending,
{
}

/// An overdue task stays overdue on every later day.
pub proof fn law_overdue_persists(status: Seq<char>, due_date: Seq<char>, today: Seq<char>, later: Seq<char>)
    requires
        is_overdue_spec(status, due_date, today),
        chars_less(today, later),
    ensures
        is_overdue_spec(status, due_date, later),
{
    lemma_chars_less_transitive(due_date, today, later);
}

/// A task due on a day is not overdue on that day, nor on any earlier day.
pub proof fn law_not_overdue_before_due(status: Seq<char>, due_date: Seq<char>, today: Seq<char>)
    requires
        today == due_date || chars_less(today, due_date),
    ensures
        !is_overdue_spec(status, due_date, today),
{
    lemma_chars_less_irreflexive(due_date);
    if chars_less(today, due_date) {
        lemma_chars_less_asymmetric(today, due_date);
    }
}

/// Pressing the check mark on a finished task makes it `ongoing`; on a task
/// with any other status, `finished`.
pub proof fn law_toggle_result(status: Seq<char>)
    ensures
        status == "finished"@ ==> toggled_status_spec(status) == "ongoing"@,
        status != "finished"@ ==> toggled_status_spec(status) == "finished"@,
{
}
} // verus!
