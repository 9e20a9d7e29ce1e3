//! A task, its status, and the one-line record that shows and stores it:
//! `{ Task ID: 1, Name: buy milk, Status: Active, Created: ..., Last Modified: ..., Finished: ... }`.
use crate::split_laws::{
    comma_sep, join_fields, lemma_labelled_no_sep, lemma_no_comma_no_sep, lemma_split_join, no_sep,
};
use crate::stamp::{lemma_wall_text_free_of, to_datetime, wall_text, year_text, Stamp, WallTime};
use crate::text::{
    decimal, fits_i32, free_of, i32_value, lemma_concat_free_of, int_text, int_text_of, lemma_decimal_free_of,
    lemma_int_text_value, no_comma, padded, parse_i32, split_on, split_text, text_equals, views_of,
};
use vstd::prelude::*;

verus! {

/// Where a task stands; it names the partition that holds the task.
#[derive(Clone, Copy, Debug, PartialEq, Eq, Structural)]
pub enum TaskStatus {
    Active,
    Completed,
    Deleted,
}

/// The failures that the task list reports.
#[derive(Clone, Copy, Debug, PartialEq, Eq, Structural)]
pub enum TaskError {
    /// No task with the given ID is in the partition searched.
    NotFound,
    /// A stored line is not a record.
    MalformedRecord,
    /// A data file could not be created, read or written.
    IoFailure,
}

pub open spec fn status_text(s: TaskStatus) -> Seq<char> {
    match s {
        TaskStatus::Active => "Active"@,
        TaskStatus::Completed => "Completed"@,
        TaskStatus::Deleted => "Deleted"@,
    }
}

/// The status a record's text names; any other text reads as active.
pub open spec fn status_named(t: Seq<char>) -> TaskStatus {
    if t == "Completed"@ {
        TaskStatus::Completed
    } else if t == "Deleted"@ {
        TaskStatus::Deleted
    } else {
        TaskStatus::Active
    }
}

impl TaskStatus {
    pub fn show(&self) -> (r: String)
        ensures
            r@ == status_text(*self),
    {
        match self {
            TaskStatus::Active => String::from_str("Active"),
            TaskStatus::Completed => String::from_str("Completed"),
            TaskStatus::Deleted => String::from_str("Deleted"),
        }
    }

    pub fn from(status: &str) -> (r: TaskStatus)
        ensures
            r == status_named(status@),
    {
        if text_equals(status, "Completed") {
            TaskStatus::Completed
        } else if text_equals(status, "Deleted") {
            TaskStatus::Deleted
        } else {
            TaskStatus::Active
        }
    }
}

/// When a task was finished, if it was.
#[derive(Clone, Copy, Debug, PartialEq, Eq, Structural)]
pub enum DateTimeOption {
    DateTime(Stamp),
    Unset,
}

/// What a record holds for a task that was not finished.
pub open spec fn unset_marker() -> Seq<char> {
    "Not completed"@
}

pub open spec fn finished_text(f: DateTimeOption) -> Seq<char> {
    match f {
        DateTimeOption::DateTime(s) => wall_text(s.local),
        DateTimeOption::Unset => unset_marker(),
    }
}

/// `text` is the canonical text of the reading `w`.
pub open spec fn canonical(w: WallTime, text: Seq<char>) -> bool {
    w.valid() && w.four_digit_year() && text == wall_text(w)
}

/// `s` is what a timestamp field `text` reads as under `offset`: a valid
/// stamp in that offset, and the reading the text spells when it spells one.
pub open spec fn stamp_read(text: Seq<char>, offset: i32, s: Stamp) -> bool {
    &&& s.valid()
    &&& s.offset == offset
    &&& forall|w: WallTime| #[trigger] canonical(w, text) ==> s == Stamp { local: w, offset }
}

/// `f` is what a `Finished` field `text` reads as: unset for the marker; else
/// a stamp read from the text, or unset when the text is not a timestamp.
pub open spec fn finished_read(text: Seq<char>, offset: i32, f: DateTimeOption) -> bool {
    if text == unset_marker() {
        f == DateTimeOption::Unset
    } else {
        &&& (f matches DateTimeOption::DateTime(s) ==> s.valid() && s.offset == offset)
        &&& forall|w: WallTime| #[trigger]
            canonical(w, text) ==> f == DateTimeOption::DateTime(Stamp { local: w, offset })
    }
}

impl DateTimeOption {
    pub open spec fn valid(self) -> bool {
        match self {
            DateTimeOption::DateTime(s) => s.valid(),
            DateTimeOption::Unset => true,
        }
    }

    pub fn show(&self) -> (r: String)
        requires
            self.valid(),
        ensures
            r@ == finished_text(*self),
    {
        match self {
            DateTimeOption::DateTime(s) => s.show(),
            DateTimeOption::Unset => String::from_str("Not completed"),
        }
    }

    /// Reads a `Finished` field under the local offset `offset`.
    pub fn from(display: &str, offset: i32) -> (r: DateTimeOption)
        requires
            -86400 < offset < 86400,
        ensures
            finished_read(display@, offset, r),
    {
        if text_equals(display, "Not completed") {
            DateTimeOption::Unset
        } else {
            match to_datetime(display, offset) {
                Some(s) => DateTimeOption::DateTime(s),
                None => DateTimeOption::Unset,
            }
        }
    }
}

/// A task.
pub struct Task {
    pub time_created: Stamp,
    pub last_time_modified: Stamp,
    pub time_finished: DateTimeOption,
    pub name: String,
    pub id: i32,
    pub status: TaskStatus,
}

/// A task's fields as values.
pub ghost struct TaskView {
    pub id: i32,
    pub name: Seq<char>,
    pub status: TaskStatus,
    pub created: Stamp,
    pub modified: Stamp,
    pub finished: DateTimeOption,
}

impl View for Task {
    type V = TaskView;

    open spec fn view(&self) -> TaskView {
        TaskView {
            id: self.id,
            name: self.name@,
            status: self.status,
            created: self.time_created,
            modified: self.last_time_modified,
            finished: self.time_finished,
        }
    }
}

impl TaskView {
    /// Every timestamp is a valid one.
    pub open spec fn valid(self) -> bool {
        self.created.valid() && self.modified.valid() && self.finished.valid()
    }

    /// Valid stamps with four-digit years, all in the offset `offset`, and a
    /// name free of the field separator.
    pub open spec fn encodable(self, offset: i32) -> bool {
        &&& self.valid()
        &&& no_sep(self.name)
        &&& self.created.local.four_digit_year() && self.created.offset == offset
        &&& self.modified.local.four_digit_year() && self.modified.offset == offset
        &&& (self.finished matches DateTimeOption::DateTime(s) ==> s.local.four_digit_year()
            && s.offset == offset)
    }
}

/// The label before the `i`th field of a record.
pub open spec fn label(i: int) -> Seq<char> {
    if i == 0 {
        "Task ID: "@
    } else if i == 1 {
        "Name: "@
    } else if i == 2 {
        "Status: "@
    } else if i == 3 {
        "Created: "@
    } else if i == 4 {
        "Last Modified: "@
    } else {
        "Finished: "@
    }
}

/// The six field values of a task's record, in order.
pub open spec fn field_values(v: TaskView) -> Seq<Seq<char>> {
    seq![
        int_text(v.id as int),
        v.name,
        status_text(v.status),
        wall_text(v.created.local),
        wall_text(v.modified.local),
        finished_text(v.finished),
    ]
}

pub open spec fn labelled(vals: Seq<Seq<char>>) -> Seq<Seq<char>> {
    Seq::new(vals.len(), |i: int| label(i) + vals[i])
}

/// The record line of a task.
pub open spec fn record_text(v: TaskView) -> Seq<char> {
    seq!['{', ' '] + join_fields(labelled(field_values(v))) + seq![' ', '}']
}

pub open spec fn has_label(p: Seq<char>, l: Seq<char>) -> bool {
    l.len() <= p.len() && p.subrange(0, l.len() as int) == l
}

/// The six field values of a line shaped as a record: `{ ` and ` }` around
/// six pieces separated by `", "`, each opening with its label.
pub open spec fn record_values(line: Seq<char>) -> Option<Seq<Seq<char>>> {
    let n = line.len();
    if n >= 4 && line[0] == '{' && line[1] == ' ' && line[n - 2] == ' ' && line[n - 1] == '}' {
        let parts = split_on(line.subrange(2, n - 2), comma_sep());
        if parts.len() == 6 && forall|i: int| 0 <= i < 6 ==> has_label(#[trigger] parts[i], label(i)) {
            Some(Seq::new(6, |i: int| parts[i].subrange(label(i).len() as int, parts[i].len() as int)))
        } else {
            None
        }
    } else {
        None
    }
}

/// A record's shape, with an ID that is an `i32`.
pub open spec fn record_shape(line: Seq<char>) -> bool {
    record_values(line) matches Some(vals) && i32_value(vals[0]) is Some
}

/// The `Created` and `Last Modified` fields are canonical timestamps.
pub open spec fn stamps_canonical(line: Seq<char>) -> bool {
    record_values(line) matches Some(vals) && (exists|w: WallTime| #[trigger]
        canonical(w, vals[3])) && (exists|w: WallTime| #[trigger] canonical(w, vals[4]))
}

/// `v` is the task that the record `line` reads as under `offset`.
pub open spec fn read_as(line: Seq<char>, offset: i32, v: TaskView) -> bool {
    match record_values(line) {
        Some(vals) => {
            &&& i32_value(vals[0]) == Some(v.id)
            &&& v.name == vals[1]
            &&& v.status == status_named(vals[2])
            &&& stamp_read(vals[3], offset, v.created)
            &&& stamp_read(vals[4], offset, v.modified)
            &&& finished_read(vals[5], offset, v.finished)
        },
        None => false,
    }
}

proof fn lemma_status_text(s: TaskStatus)
    ensures
        status_named(status_text(s)) == s,
        no_comma(status_text(s)),
{
    reveal_strlit("Active");
    reveal_strlit("Completed");
    reveal_strlit("Deleted");
    assert("Active"@.len() == 6 && "Completed"@.len() == 9 && "Deleted"@.len() == 7);
    assert("Active"@ != "Completed"@ && "Active"@ != "Deleted"@ && "Deleted"@ != "Completed"@);
    let t = status_text(s);
    assert(no_comma(t));
}

proof fn lemma_wall_text_long(w: WallTime)
    ensures
        wall_text(w).len() >= 19,
{
    let y = w.year as int;
    assert(padded((if y < 0 { -y } else { y }) as nat, 4).len() >= 4);
    assert(year_text(y).len() >= 4);
    assert(padded(w.month as nat, 2).len() >= 2);
    assert(padded(w.day as nat, 2).len() >= 2);
    assert(padded(w.hour as nat, 2).len() >= 2);
    assert(padded(w.minute as nat, 2).len() >= 2);
    assert(padded(w.second as nat, 2).len() >= 2);
}

proof fn lemma_finished_text(f: DateTimeOption)
    ensures
        no_comma(finished_text(f)),
        f matches DateTimeOption::DateTime(s) ==> finished_text(f) != unset_marker(),
{
    reveal_strlit("Not completed");
    match f {
        DateTimeOption::DateTime(s) => {
            lemma_wall_text_free_of(s.local, ',');
            lemma_wall_text_long(s.local);
        },
        DateTimeOption::Unset => {
            assert(no_comma(finished_text(f)));
        },
    }
}

proof fn lemma_labels_no_comma(i: int)
    ensures
        no_comma(label(i)),
{
    reveal_strlit("Task ID: ");
    reveal_strlit("Name: ");
    reveal_strlit("Status: ");
    reveal_strlit("Created: ");
    reveal_strlit("Last Modified: ");
    reveal_strlit("Finished: ");
    assert(no_comma(label(i)));
}

/// The record of a task that is encodable under `offset` has a record's shape,
/// canonical timestamps, and its field values.
proof fn lemma_record_values(v: TaskView, offset: i32)
    requires
        v.encodable(offset),
    ensures
        record_values(record_text(v)) == Some(field_values(v)),
        record_shape(record_text(v)),
        stamps_canonical(record_text(v)),
{
    let vals = field_values(v);
    let fs = labelled(vals);
    if v.id < 0 {
        lemma_decimal_free_of((-v.id) as nat, ',');
        assert(no_comma(seq!['-']));
        lemma_concat_free_of(seq!['-'], decimal((-v.id) as nat), ',');
    } else {
        lemma_decimal_free_of(v.id as nat, ',');
    }
    lemma_no_comma_no_sep(int_text(v.id as int));
    lemma_status_text(v.status);
    lemma_no_comma_no_sep(status_text(v.status));
    lemma_wall_text_free_of(v.created.local, ',');
    lemma_no_comma_no_sep(wall_text(v.created.local));
    lemma_wall_text_free_of(v.modified.local, ',');
    lemma_no_comma_no_sep(wall_text(v.modified.local));
    lemma_finished_text(v.finished);
    lemma_no_comma_no_sep(finished_text(v.finished));
    assert forall|i: int| 0 <= i < fs.len() implies no_sep(#[trigger] fs[i]) by {
        lemma_labels_no_comma(i);
        lemma_labelled_no_sep(label(i), vals[i]);
    }
    lemma_split_join(fs);
    let line = record_text(v);
    let body = join_fields(fs);
    let n = line.len();
    assert(line.subrange(2, n - 2) =~= body);
    assert(line[0] == '{' && line[1] == ' ');
    assert(line[n - 2] == ' ' && line[n - 1] == '}');
    let parts = split_on(body, comma_sep());
    assert(parts == fs);
    assert forall|i: int| 0 <= i < 6 implies has_label(#[trigger] parts[i], label(i)) by {
        assert(parts[i] == label(i) + vals[i]);
        assert(parts[i].subrange(0, label(i).len() as int) =~= label(i));
    }
    let got = Seq::new(
        6,
        |i: int| parts[i].subrange(label(i).len() as int, parts[i].len() as int),
    );
    assert forall|i: int| 0 <= i < 6 implies got[i] == vals[i] by {
        assert(parts[i] == label(i) + vals[i]);
        assert(parts[i].subrange(label(i).len() as int, parts[i].len() as int) =~= vals[i]);
    }
    assert(got =~= vals);
    lemma_int_text_value(v.id as int);
    assert(fits_i32(v.id as int));
    assert(canonical(v.created.local, vals[3]));
    assert(canonical(v.modified.local, vals[4]));
}

/// Reading a task's record gives back the task: for every task `v` whose name
/// holds no `", "`, whose years have four digits and whose stamps were taken
/// under `offset`, the record of `v` has a record's shape with canonical
/// timestamps, and the only task it reads as under `offset` is `v`.
pub proof fn lemma_record_round_trip(v: TaskView, offset: i32)
    requires
        v.encodable(offset),
    ensures
        record_shape(record_text(v)),
        stamps_canonical(record_text(v)),
        forall|u: TaskView| read_as(record_text(v), offset, u) ==> u == v,
{
    lemma_record_values(v, offset);
    let vals = field_values(v);
    lemma_int_text_value(v.id as int);
    lemma_status_text(v.status);
    lemma_finished_text(v.finished);
    reveal_strlit("Not completed");
    assert forall|u: TaskView| read_as(record_text(v), offset, u) implies u == v by {
        assert(canonical(v.created.local, vals[3]));
        assert(canonical(v.modified.local, vals[4]));
        match v.finished {
            DateTimeOption::DateTime(s) => {
                assert(canonical(s.local, vals[5]));
            },
            DateTimeOption::Unset => {},
        }
    }
}

proof fn lemma_join_six(fs: Seq<Seq<char>>)
    requires
        fs.len() == 6,
    ensures
        join_fields(fs) == fs[0] + comma_sep() + fs[1] + comma_sep() + fs[2] + comma_sep() + fs[3]
            + comma_sep() + fs[4] + comma_sep() + fs[5],
{
    let sep = comma_sep();
    let j1 = fs.drop_first();
    let j2 = j1.drop_first();
    let j3 = j2.drop_first();
    let j4 = j3.drop_first();
    let j5 = j4.drop_first();
    assert(join_fields(j5) == fs[5]);
    assert(join_fields(j4) == fs[4] + sep + join_fields(j5));
    assert(join_fields(j3) == fs[3] + sep + join_fields(j4));
    assert(join_fields(j2) == fs[2] + sep + join_fields(j3));
    assert(join_fields(j1) == fs[1] + sep + join_fields(j2));
    assert(join_fields(fs) == fs[0] + sep + join_fields(j1));
    assert(join_fields(fs) =~= fs[0] + sep + fs[1] + sep + fs[2] + sep + fs[3] + sep + fs[4] + sep
        + fs[5]);
}

fn labelled_piece(label: &str, value: &str) -> (r: String)
    ensures
        r@ == label@ + value@,
{
    let mut r = String::from_str(label);
    r.append(value);
    r
}

/// A record opens with `{` and closes with `}`.
pub proof fn lemma_record_ends(v: TaskView)
    ensures
        record_text(v).len() >= 4,
        record_text(v)[0] == '{',
        record_text(v).last() == '}',
{
}

/// A record is one line when the task's name is.
pub proof fn lemma_record_one_line(v: TaskView)
    requires
        free_of(v.name, '\n'),
    ensures
        free_of(record_text(v), '\n'),
{
    reveal_strlit("Active");
    reveal_strlit("Completed");
    reveal_strlit("Deleted");
    reveal_strlit("Not completed");
    let c = '\n';
    let vals = field_values(v);
    let fs = labelled(vals);
    if v.id < 0 {
        lemma_decimal_free_of((-v.id) as nat, c);
        assert(free_of(seq!['-'], c));
        lemma_concat_free_of(seq!['-'], decimal((-v.id) as nat), c);
    } else {
        lemma_decimal_free_of(v.id as nat, c);
    }
    lemma_wall_text_free_of(v.created.local, c);
    lemma_wall_text_free_of(v.modified.local, c);
    match v.finished {
        DateTimeOption::DateTime(s) => lemma_wall_text_free_of(s.local, c),
        DateTimeOption::Unset => {},
    }
    assert(free_of(status_text(v.status), c));
    assert(free_of(finished_text(v.finished), c));
    assert forall|i: int| 0 <= i < 6 implies free_of(#[trigger] fs[i], c) by {
        lemma_labels_free_of_newline(i);
        lemma_concat_free_of(label(i), vals[i], c);
    }
    lemma_join_six(fs);
    let sep = comma_sep();
    assert(free_of(sep, c));
    lemma_concat_free_of(fs[0], sep, c);
    lemma_concat_free_of(fs[0] + sep, fs[1], c);
    lemma_concat_free_of(fs[0] + sep + fs[1], sep, c);
    lemma_concat_free_of(fs[0] + sep + fs[1] + sep, fs[2], c);
    lemma_concat_free_of(fs[0] + sep + fs[1] + sep + fs[2], sep, c);
    lemma_concat_free_of(fs[0] + sep + fs[1] + sep + fs[2] + sep, fs[3], c);
    lemma_concat_free_of(fs[0] + sep + fs[1] + sep + fs[2] + sep + fs[3], sep, c);
    lemma_concat_free_of(fs[0] + sep + fs[1] + sep + fs[2] + sep + fs[3] + sep, fs[4], c);
    lemma_concat_free_of(fs[0] + sep + fs[1] + sep + fs[2] + sep + fs[3] + sep + fs[4], sep, c);
    lemma_concat_free_of(
        fs[0] + sep + fs[1] + sep + fs[2] + sep + fs[3] + sep + fs[4] + sep,
        fs[5],
        c,
    );
    assert(free_of(seq!['{', ' '], c));
    assert(free_of(seq![' ', '}'], c));
    lemma_concat_free_of(seq!['{', ' '], join_fields(fs), c);
    lemma_concat_free_of(seq!['{', ' '] + join_fields(fs), seq![' ', '}'], c);
}

proof fn lemma_labels_free_of_newline(i: int)
    ensures
        free_of(label(i), '\n'),
{
    reveal_strlit("Task ID: ");
    reveal_strlit("Name: ");
    reveal_strlit("Status: ");
    reveal_strlit("Created: ");
    reveal_strlit("Last Modified: ");
    reveal_strlit("Finished: ");
    assert(free_of(label(i), '\n'));
}

fn strip_label(part: &str, label: &str) -> (r: Option<String>)
    ensures
        r matches Some(v) ==> has_label(part@, label@) && v@ == part@.subrange(
            label@.len() as int,
            part@.len() as int,
        ),
        r is None ==> !has_label(part@, label@),
{
    let n = part.unicode_len();
    let m = label.unicode_len();
    if m > n {
        return None;
    }
    let head = part.substring_char(0, m);
    if !text_equals(head, label) {
        return None;
    }
    Some(String::from_str(part.substring_char(m, n)))
}

impl Task {
    /// A new active task named `name` with ID `id`, created and last modified at `now`.
    pub fn new_at(name: String, id: i32, now: Stamp) -> (r: Task)
        ensures
            r@ == (TaskView {
                id,
                name: name@,
                status: TaskStatus::Active,
                created: now,
                modified: now,
                finished: DateTimeOption::Unset,
            }),
    {
        Task {
            id,
            name,
            status: TaskStatus::Active,
            time_created: now,
            last_time_modified: now,
            time_finished: DateTimeOption::Unset,
        }
    }

    /// A new active task named `name` with ID `id`, created now.
    pub fn from_name_id(name: String, id: i32) -> (r: Task)
        ensures
            r.id == id,
            r.name@ == name@,
            r.status == TaskStatus::Active,
            r.time_finished == DateTimeOption::Unset,
            r.time_created == r.last_time_modified,
            r@.valid(),
    {
        Task::new_at(name, id, Stamp::now())
    }

    /// Renames the task, and records `now` as its last modification.
    pub fn set_at(&mut self, new_name: String, now: Stamp)
        ensures
            final(self)@ == (TaskView { name: new_name@, modified: now, ..old(self)@ }),
    {
        self.name = new_name;
        self.last_time_modified = now;
    }

    /// Renames the task, and records the current time as its last modification.
    pub fn set(&mut self, new_name: String)
        ensures
            final(self).name@ == new_name@,
            final(self).last_time_modified.valid(),
            final(self).id == old(self).id,
            final(self).status == old(self).status,
            final(self).time_created == old(self).time_created,
            final(self).time_finished == old(self).time_finished,
    {
        self.set_at(new_name, Stamp::now());
    }

    /// The task's record line.
    pub fn show(&self) -> (r: String)
        requires
            self@.valid(),
        ensures
            r@ == record_text(self@),
    {
        let id = int_text_of(self.id);
        let status = self.status.show();
        let created = self.time_created.show();
        let modified = self.last_time_modified.show();
        let finished = self.time_finished.show();
        let f0 = labelled_piece("Task ID: ", id.as_str());
        let f1 = labelled_piece("Name: ", self.name.as_str());
        let f2 = labelled_piece("Status: ", status.as_str());
        let f3 = labelled_piece("Created: ", created.as_str());
        let f4 = labelled_piece("Last Modified: ", modified.as_str());
        let f5 = labelled_piece("Finished: ", finished.as_str());
        let mut body = f0;
        body.append(", ");
        body.append(f1.as_str());
        body.append(", ");
        body.append(f2.as_str());
        body.append(", ");
        body.append(f3.as_str());
        body.append(", ");
        body.append(f4.as_str());
        body.append(", ");
        body.append(f5.as_str());
        let mut s = String::from_str("{ ");
        s.append(body.as_str());
        s.append(" }");
        proof {
            let fs = labelled(field_values(self@));
            lemma_join_six(fs);
            assert(", "@ =~= comma_sep()) by {
                reveal_strlit(", ");
            }
            assert("{ "@ =~= seq!['{', ' ']) by {
                reveal_strlit("{ ");
            }
            assert(" }"@ =~= seq![' ', '}']) by {
                reveal_strlit(" }");
            }
            assert(fs[0] == f0@ && fs[1] == f1@ && fs[2] == f2@);
            assert(fs[3] == f3@ && fs[4] == f4@ && fs[5] == f5@);
            assert(body@ == join_fields(fs));
        }
        s
    }

    /// Reads a task from its record line, with timestamps in the local zone
    /// whose UTC offset is `offset`.
    ///
    /// Fails with `MalformedRecord` when the line is not six labelled fields
    /// between `{ ` and ` }`, when the ID is not an `i32`, or when `Created` or
    /// `Last Modified` is not a timestamp. An unknown status reads as active; a
    /// `Finished` field that is not a timestamp reads as unset.
    pub fn from_str(display: &str, offset: i32) -> (r: Result<Task, TaskError>)
        requires
            -86400 < offset < 86400,
        ensures
            r matches Ok(t) ==> read_as(display@, offset, t@) && t@.valid(),
            r matches Err(e) ==> e == TaskError::MalformedRecord,
            !record_shape(display@) ==> r is Err,
            record_shape(display@) && stamps_canonical(display@) ==> r is Ok,
            forall|v: TaskView|
                v.encodable(offset) && display@ == #[trigger] record_text(v) ==> (r matches Ok(t)
                    && t@ == v),
    {
        proof {
            assert forall|v: TaskView|
                v.encodable(offset) && display@ == #[trigger] record_text(v) implies record_shape(
                display@,
            ) && stamps_canonical(display@) && forall|u: TaskView|
                read_as(display@, offset, u) ==> u == v by {
                lemma_record_round_trip(v, offset);
            }
        }
        let n = display.unicode_len();
        if n < 4 {
            return Err(TaskError::MalformedRecord);
        }
        if display.get_char(0) != '{' || display.get_char(1) != ' ' || display.get_char(n - 2)
            != ' ' || display.get_char(n - 1) != '}' {
            return Err(TaskError::MalformedRecord);
        }
        let body = display.substring_char(2, n - 2);
        proof {
            reveal_strlit(", ");
            assert(", "@ =~= comma_sep());
        }
        let parts = split_text(body, ", ");
        let ghost line = display@;
        let ghost pv = views_of(parts@);
        assert(pv == split_on(line.subrange(2, n - 2), comma_sep()));
        if parts.len() != 6 {
            return Err(TaskError::MalformedRecord);
        }
        assert(pv[0] == parts@[0]@ && pv[1] == parts@[1]@ && pv[2] == parts@[2]@);
        assert(pv[3] == parts@[3]@ && pv[4] == parts@[4]@ && pv[5] == parts@[5]@);
        let v0 = match strip_label(parts[0].as_str(), "Task ID: ") {
            Some(v) => v,
            None => return Err(TaskError::MalformedRecord),
        };
        let v1 = match strip_label(parts[1].as_str(), "Name: ") {
            Some(v) => v,
            None => return Err(TaskError::MalformedRecord),
        };
        let v2 = match strip_label(parts[2].as_str(), "Status: ") {
            Some(v) => v,
            None => return Err(TaskError::MalformedRecord),
        };
        let v3 = match strip_label(parts[3].as_str(), "Created: ") {
            Some(v) => v,
            None => return Err(TaskError::MalformedRecord),
        };
        let v4 = match strip_label(parts[4].as_str(), "Last Modified: ") {
            Some(v) => v,
            None => return Err(TaskError::MalformedRecord),
        };
        let v5 = match strip_label(parts[5].as_str(), "Finished: ") {
            Some(v) => v,
            None => return Err(TaskError::MalformedRecord),
        };
        let ghost vals = record_values(line)->0;
        assert(forall|i: int| 0 <= i < 6 ==> has_label(#[trigger] pv[i], label(i)));
        assert(record_values(line) is Some);
        assert(vals[0] == v0@ && vals[1] == v1@ && vals[2] == v2@);
        assert(vals[3] == v3@ && vals[4] == v4@ && vals[5] == v5@);
        let id = match parse_i32(v0.as_str()) {
            Some(i) => i,
            None => return Err(TaskError::MalformedRecord),
        };
        let status = TaskStatus::from(v2.as_str());
        let created = match to_datetime(v3.as_str(), offset) {
            Some(s) => s,
            None => {
                proof {
                    if stamps_canonical(line) {
                        let w = choose|w: WallTime| #[trigger] canonical(w, vals[3]);
                        assert(canonical(w, v3@));
                    }
                }
                return Err(TaskError::MalformedRecord);
            },
        };
        let modified = match to_datetime(v4.as_str(), offset) {
            Some(s) => s,
            None => {
                proof {
                    if stamps_canonical(line) {
                        let w = choose|w: WallTime| #[trigger] canonical(w, vals[4]);
                        assert(canonical(w, v4@));
                    }
                }
                return Err(TaskError::MalformedRecord);
            },
        };
        let finished = DateTimeOption::from(v5.as_str(), offset);
        let t = Task {
            id,
            name: v1,
            status,
            time_created: created,
            last_time_modified: modified,
            time_finished: finished,
        };
        proof {
            assert forall|w: WallTime| #[trigger] canonical(w, vals[3]) implies created == Stamp {
                local: w,
                offset,
            } by {
                assert(canonical(w, v3@));
            }
            assert forall|w: WallTime| #[trigger] canonical(w, vals[4]) implies modified == Stamp {
                local: w,
                offset,
            } by {
                assert(canonical(w, v4@));
            }
            assert(read_as(line, offset, t@));
        }
        Ok(t)
    }
}

} // verus!
