//! What is stored between runs: one text per partition, a record per line,
//! and where the files lie.
use crate::store::{views, Tasks};
use crate::task::{read_as, record_shape, record_text, stamps_canonical, status_text, Task, TaskError, TaskStatus, TaskView};
use crate::split_laws::lemma_pieces_skip;
use crate::task::{lemma_record_one_line, lemma_record_ends};
use crate::text::{
    free_of, is_white, lead_white, pieces, sep_at, split_on, split_text, trail_white, trim_text,
    trimmed, views_of,
};
use vstd::prelude::*;

verus! {

/// The directory used when the working directory is not known.
pub const DEFAULT_DIR: &'static str = "C:\\todolist";

/// The data directory's name, under the working directory.
pub const DATA_DIR: &'static str = "data";

/// The file that holds the user's name.
pub const NAME_FILE: &'static str = "names.txt";

/// The name of the file that holds the partition of `status`: `Active.txt`,
/// `Completed.txt` or `Deleted.txt`.
pub fn partition_file_name(status: TaskStatus) -> (r: String)
    ensures
        r@ == status_text(status) + ".txt"@,
{
    let mut r = status.show();
    r.append(".txt");
    r
}

/// `dir` and `name` joined by `/`.
pub open spec fn joined_path(dir: Seq<char>, name: Seq<char>) -> Seq<char> {
    dir + seq!['/'] + name
}

/// The data directory: `data` under the working directory, or under
/// `DEFAULT_DIR` when the working directory is not known.
pub fn get_path(work_dir: Option<&str>) -> (r: String)
    ensures
        r@ == joined_path(
            match work_dir {
                Some(d) => d@,
                None => DEFAULT_DIR@,
            },
            DATA_DIR@,
        ),
{
    let base = match work_dir {
        Some(d) => d,
        None => DEFAULT_DIR,
    };
    get_file_path(base, DATA_DIR)
}

/// The path of the file `filename` in the directory `data_dir`.
pub fn get_file_path(data_dir: &str, filename: &str) -> (r: String)
    ensures
        r@ == joined_path(data_dir@, filename@),
{
    let mut r = String::from_str(data_dir);
    r.append("/");
    proof {
        reveal_strlit("/");
    }
    r.append(filename);
    r
}

/// The path of the file that holds the user's name, in `data_dir`.
pub fn get_name_path(data_dir: &str) -> (r: String)
    ensures
        r@ == joined_path(data_dir@, NAME_FILE@),
{
    get_file_path(data_dir, NAME_FILE)
}

/// Where the user's name comes from.
#[derive(Clone, Copy, Debug, PartialEq, Eq, Structural)]
pub enum NameSource {
    /// Read the name stored in the name file.
    Stored,
    /// Ask the user for a name, and store it.
    AskNew,
}

/// The name is read from the name file when it exists, and asked for otherwise.
pub fn ret_name(name_file_exists: bool) -> (r: NameSource)
    ensures
        r == (if name_file_exists {
            NameSource::Stored
        } else {
            NameSource::AskNew
        }),
{
    if name_file_exists {
        NameSource::Stored
    } else {
        NameSource::AskNew
    }
}

/// The next step in getting the user's name.
pub enum NameStep {
    /// The name was got.
    Done(String),
    /// Make one more attempt.
    Retry,
    /// All attempts failed.
    GiveUp,
}

/// Getting the user's name takes up to `trials` attempts and stops at the
/// first that succeeds. After `attempts` attempts, the last of which gave
/// `outcome` (`None` before the first), this says what comes next.
pub fn ret_name_loop(trials: i32, attempts: i32, outcome: Option<String>) -> (r: NameStep)
    ensures
        match outcome {
            Some(name) => r matches NameStep::Done(n) && n@ == name@,
            None => if attempts < trials {
                r is Retry
            } else {
                r is GiveUp
            },
        },
{
    match outcome {
        Some(name) => NameStep::Done(name),
        None => if attempts < trials {
            NameStep::Retry
        } else {
            NameStep::GiveUp
        },
    }
}

/// The stored text of a partition: each task's record followed by a newline.
pub open spec fn partition_text(s: Seq<TaskView>) -> Seq<char>
    decreases s.len(),
{
    if s.len() == 0 {
        Seq::empty()
    } else {
        partition_text(s.drop_last()) + record_text(s.last()) + "\n"@
    }
}

/// The record lines of `lines`: each trimmed, the blank ones left out.
pub open spec fn record_lines(lines: Seq<Seq<char>>) -> Seq<Seq<char>>
    decreases lines.len(),
{
    if lines.len() == 0 {
        Seq::empty()
    } else {
        let rest = record_lines(lines.drop_last());
        let l = trimmed(lines.last());
        if l.len() == 0 {
            rest
        } else {
            rest.push(l)
        }
    }
}

/// The records of the tasks `vs`, in order.
pub open spec fn records_of(vs: Seq<TaskView>) -> Seq<Seq<char>> {
    vs.map_values(|v: TaskView| record_text(v))
}

/// The record lines of a stored partition text.
pub open spec fn stored_lines(text: Seq<char>) -> Seq<Seq<char>> {
    record_lines(split_on(text, "\n"@))
}

proof fn lemma_partition_text_front(vs: Seq<TaskView>)
    requires
        vs.len() > 0,
    ensures
        partition_text(vs) == record_text(vs[0]) + "\n"@ + partition_text(vs.drop_first()),
    decreases vs.len(),
{
    if vs.len() == 1 {
        assert(vs.drop_last() =~= Seq::<TaskView>::empty());
        assert(vs.drop_first() =~= Seq::<TaskView>::empty());
        assert(partition_text(vs) =~= record_text(vs[0]) + "\n"@ + partition_text(vs.drop_first()));
    } else {
        let p = vs.drop_last();
        lemma_partition_text_front(p);
        assert(p.drop_first() =~= vs.drop_first().drop_last());
        assert(p[0] == vs[0]);
        assert(vs.drop_first().last() == vs.last());
        assert(partition_text(vs) =~= record_text(vs[0]) + "\n"@ + partition_text(vs.drop_first()));
    }
}

/// Lines each followed by a newline.
pub open spec fn terminated(rs: Seq<Seq<char>>) -> Seq<char>
    decreases rs.len(),
{
    if rs.len() == 0 {
        Seq::empty()
    } else {
        rs[0] + seq!['\n'] + terminated(rs.drop_first())
    }
}

proof fn lemma_partition_terminated(vs: Seq<TaskView>)
    requires
        "\n"@ == seq!['\n'],
    ensures
        partition_text(vs) == terminated(records_of(vs)),
    decreases vs.len(),
{
    if vs.len() > 0 {
        lemma_partition_text_front(vs);
        lemma_partition_terminated(vs.drop_first());
        assert(records_of(vs).drop_first() =~= records_of(vs.drop_first()));
    } else {
        assert(partition_text(vs) =~= terminated(records_of(vs)));
    }
}

/// Splitting lines each followed by a newline, from position `a`, gives the
/// lines and then the empty text after the last newline.
proof fn lemma_terminated_pieces(s: Seq<char>, a: int, rs: Seq<Seq<char>>)
    requires
        0 <= a <= s.len(),
        s.subrange(a, s.len() as int) == terminated(rs),
        forall|i: int| 0 <= i < rs.len() ==> free_of(#[trigger] rs[i], '\n'),
    ensures
        pieces(s, seq!['\n'], a, a) == rs.push(Seq::empty()),
    decreases rs.len(),
{
    let nl = seq!['\n'];
    if rs.len() == 0 {
        assert(a == s.len());
        assert(s.subrange(a, s.len() as int) =~= Seq::<char>::empty());
        assert(rs.push(Seq::empty()) =~= seq![Seq::<char>::empty()]);
    } else {
        let r = rs[0];
        let rest = rs.drop_first();
        let tail = s.subrange(a, s.len() as int);
        let j = a + r.len();
        assert(free_of(r, '\n'));
        assert(tail == r + nl + terminated(rest));
        assert forall|k: int| a <= k < j implies !sep_at(s, nl, k) by {
            if sep_at(s, nl, k) {
                assert(s.subrange(k, k + 1)[0] == s[k]);
                assert(s[k] == tail[k - a]);
                assert(tail[k - a] == r[k - a]);
            }
        }
        lemma_pieces_skip(s, nl, a, a, j);
        assert(s.subrange(j, j + 1) =~= nl) by {
            assert(s[j] == tail[r.len() as int]);
        }
        assert(s.subrange(a, j) =~= r) by {
            assert forall|t: int| 0 <= t < r.len() implies s.subrange(a, j)[t] == r[t] by {
                assert(s[a + t] == tail[t]);
            }
        }
        assert(s.subrange(j + 1, s.len() as int) =~= terminated(rest)) by {
            assert(tail.subrange(r.len() + 1int, tail.len() as int) =~= terminated(rest));
        }
        assert forall|i: int| 0 <= i < rest.len() implies free_of(#[trigger] rest[i], '\n') by {
            assert(rest[i] == rs[i + 1]);
        }
        lemma_terminated_pieces(s, j + 1, rest);
        assert(rs.push(Seq::empty()) =~= seq![r] + rest.push(Seq::empty()));
    }
}

proof fn lemma_record_lines_of_records(vs: Seq<TaskView>)
    requires
        forall|i: int| 0 <= i < vs.len() ==> trimmed(record_text(#[trigger] vs[i])) == record_text(
            vs[i],
        ) && record_text(vs[i]).len() > 0,
    ensures
        record_lines(records_of(vs)) == records_of(vs),
    decreases vs.len(),
{
    if vs.len() > 0 {
        let p = vs.drop_last();
        assert(records_of(vs).drop_last() =~= records_of(p));
        assert forall|i: int| 0 <= i < p.len() implies trimmed(record_text(#[trigger] p[i]))
            == record_text(p[i]) && record_text(p[i]).len() > 0 by {
            assert(p[i] == vs[i]);
        }
        lemma_record_lines_of_records(p);
        assert(records_of(vs).last() == record_text(vs.last()));
        assert(records_of(vs) =~= records_of(p).push(record_text(vs.last())));
    }
}

/// A record line is its own trimmed text.
proof fn lemma_record_trimmed(v: TaskView)
    ensures
        trimmed(record_text(v)) == record_text(v),
        record_text(v).len() > 0,
{
    let r = record_text(v);
    lemma_record_ends(v);
    assert(!is_white(r[0]));
    assert(!is_white(r.last()));
    assert(lead_white(r) == 0);
    assert(r.subrange(0, r.len() as int) =~= r);
    assert(trail_white(r) == 0);
}

/// Reading back a saved partition: the stored text of tasks whose names hold
/// no newline has exactly their records as its record lines. With `fill`'s
/// contract, reading the text under `offset` gives back the tasks when each
/// is encodable under `offset`.
pub proof fn lemma_partition_round_trip(vs: Seq<TaskView>)
    requires
        forall|i: int| 0 <= i < vs.len() ==> free_of((#[trigger] vs[i]).name, '\n'),
    ensures
        stored_lines(partition_text(vs)) == records_of(vs),
{
    let s = partition_text(vs);
    assert("\n"@ =~= seq!['\n']) by {
        reveal_strlit("\n");
    }
    assert forall|i: int| 0 <= i < vs.len() implies free_of(record_text(#[trigger] vs[i]), '\n') by {
        lemma_record_one_line(vs[i]);
    }
    assert forall|i: int| 0 <= i < vs.len() implies trimmed(record_text(#[trigger] vs[i]))
        == record_text(vs[i]) && record_text(vs[i]).len() > 0 by {
        lemma_record_trimmed(vs[i]);
    }
    assert(s.subrange(0, s.len() as int) =~= s);
    lemma_partition_terminated(vs);
    assert forall|i: int| 0 <= i < records_of(vs).len() implies free_of(
        #[trigger] records_of(vs)[i],
        '\n',
    ) by {
        assert(records_of(vs)[i] == record_text(vs[i]));
    }
    lemma_terminated_pieces(s, 0, records_of(vs));
    let x = records_of(vs).push(Seq::<char>::empty());
    assert(x.drop_last() =~= records_of(vs));
    assert(trimmed(Seq::<char>::empty()) =~= Seq::<char>::empty());
    lemma_record_lines_of_records(vs);
}

/// Writes a partition as its stored text.
pub fn save_tasks(tasks_list: &Vec<Task>) -> (r: String)
    requires
        forall|i: int| 0 <= i < tasks_list@.len() ==> (#[trigger] tasks_list@[i])@.valid(),
    ensures
        r@ == partition_text(views(tasks_list@)),
{
    let mut r = String::new();
    let mut i: usize = 0;
    while i < tasks_list.len()
        invariant
            i <= tasks_list@.len(),
            forall|j: int| 0 <= j < tasks_list@.len() ==> (#[trigger] tasks_list@[j])@.valid(),
            r@ == partition_text(views(tasks_list@).subrange(0, i as int)),
        decreases tasks_list@.len() - i,
    {
        let line = tasks_list[i].show();
        r.append(line.as_str());
        r.append("\n");
        proof {
            let s = views(tasks_list@).subrange(0, i + 1);
            assert(s.drop_last() =~= views(tasks_list@).subrange(0, i as int));
        }
        i = i + 1;
    }
    assert(views(tasks_list@).subrange(0, tasks_list@.len() as int) =~= views(tasks_list@));
    r
}

proof fn lemma_record_lines_prefix(lines: Seq<Seq<char>>, i: int)
    requires
        0 <= i <= lines.len(),
    ensures
        record_lines(lines.take(i)).len() <= record_lines(lines).len(),
        record_lines(lines).take(record_lines(lines.take(i)).len() as int) == record_lines(
            lines.take(i),
        ),
    decreases lines.len(),
{
    if i == lines.len() {
        assert(lines.take(i) =~= lines);
        assert(record_lines(lines).take(record_lines(lines).len() as int) =~= record_lines(lines));
    } else {
        let p = lines.drop_last();
        lemma_record_lines_prefix(p, i);
        assert(p.take(i) =~= lines.take(i));
        let a = record_lines(p);
        let b = record_lines(lines);
        let k = record_lines(lines.take(i)).len() as int;
        assert(b.take(k) =~= a.take(k));
    }
}

/// Reads a partition from its stored text, with timestamps in the local zone
/// whose UTC offset is `offset`.
///
/// The text is split at newlines; each line is trimmed, blank lines are
/// skipped, and every other line must be a record. The first line that is not
/// one fails the whole partition with `MalformedRecord`.
pub fn fill(text: &str, offset: i32) -> (r: Result<Vec<Task>, TaskError>)
    requires
        -86400 < offset < 86400,
    ensures
        r matches Ok(v) ==> v@.len() == stored_lines(text@).len() && forall|i: int|
            0 <= i < v@.len() ==> read_as(stored_lines(text@)[i], offset, (#[trigger] v@[i])@)
                && v@[i]@.valid(),
        r matches Err(e) ==> e == TaskError::MalformedRecord && exists|i: int|
            0 <= i < stored_lines(text@).len() && !(record_shape(#[trigger] stored_lines(text@)[i])
                && stamps_canonical(stored_lines(text@)[i])),
        (exists|i: int|
            0 <= i < stored_lines(text@).len() && !record_shape(#[trigger] stored_lines(text@)[i]))
            ==> r is Err,
        (forall|i: int|
            0 <= i < stored_lines(text@).len() ==> record_shape(#[trigger] stored_lines(text@)[i])
                && stamps_canonical(stored_lines(text@)[i])) ==> r is Ok,
        forall|vs: Seq<TaskView>|
            (forall|i: int| 0 <= i < vs.len() ==> (#[trigger] vs[i]).encodable(offset))
                && stored_lines(text@) == #[trigger] records_of(vs) ==> (r matches Ok(
                v) && views(v@) == vs),
        forall|vs: Seq<TaskView>|
            (forall|i: int|
                0 <= i < vs.len() ==> (#[trigger] vs[i]).encodable(offset) && free_of(
                    vs[i].name,
                    '\n',
                )) && text@ == #[trigger] partition_text(vs) ==> (r matches Ok(v) && views(v@)
                == vs),
{
    proof {
        reveal_strlit("\n");
        assert forall|vs: Seq<TaskView>|
            (forall|i: int|
                0 <= i < vs.len() ==> (#[trigger] vs[i]).encodable(offset) && free_of(
                    vs[i].name,
                    '\n',
                )) && text@ == #[trigger] partition_text(vs) implies stored_lines(text@)
            == records_of(vs) by {
            lemma_partition_round_trip(vs);
        }
    }
    let lines = split_text(text, "\n");
    let ghost all = views_of(lines@);
    let ghost stored = stored_lines(text@);
    assert(all == split_on(text@, "\n"@));
    let mut out: Vec<Task> = Vec::new();
    let mut i: usize = 0;
    while i < lines.len()
        invariant
            -86400 < offset < 86400,
            i <= lines@.len(),
            all == views_of(lines@),
            stored == record_lines(all),
            out@.len() == record_lines(all.take(i as int)).len(),
            out@.len() <= stored.len(),
            stored.take(out@.len() as int) == record_lines(all.take(i as int)),
            forall|j: int|
                0 <= j < out@.len() ==> read_as(stored[j], offset, (#[trigger] out@[j])@)
                    && out@[j]@.valid(),
            forall|j: int| 0 <= j < out@.len() ==> record_shape(#[trigger] stored[j]),
            stored == stored_lines(text@),
            all == split_on(text@, "\n"@),
        decreases lines@.len() - i,
    {
        proof {
            lemma_record_lines_prefix(all, i + 1);
            assert(all.take(i + 1).drop_last() =~= all.take(i as int));
            assert(all.take(i + 1).last() == lines@[i as int]@);
        }
        let line = trim_text(lines[i].as_str());
        if line.unicode_len() != 0 {
            let ghost k = out@.len() as int;
            assert(stored.take(k + 1) == record_lines(all.take(i + 1)));
            assert(stored.take(k + 1)[k] == stored[k]);
            assert(stored[k] == line@);
            match Task::from_str(line.as_str(), offset) {
                Ok(t) => {
                    out.push(t);
                },
                Err(e) => {
                    proof {
                        assert(!(record_shape(stored_lines(text@)[k]) && stamps_canonical(
                            stored_lines(text@)[k],
                        )));
                        assert forall|vs: Seq<TaskView>|
                            (forall|i: int| 0 <= i < vs.len() ==> (#[trigger] vs[i]).encodable(offset))
                                && stored == #[trigger] records_of(vs) implies false by {
                            assert(vs.len() == stored.len());
                            assert(stored[k] == record_text(vs[k]));
                            crate::task::lemma_record_round_trip(vs[k], offset);
                        }
                        assert forall|vs: Seq<TaskView>|
                            (forall|i: int|
                                0 <= i < vs.len() ==> (#[trigger] vs[i]).encodable(offset)
                                    && free_of(vs[i].name, '\n')) && text@ == #[trigger] partition_text(
                                vs,
                            ) implies false by {
                            lemma_partition_round_trip(vs);
                            assert(stored == records_of(vs));
                            assert(vs.len() == stored.len());
                            assert(stored[k] == record_text(vs[k]));
                            crate::task::lemma_record_round_trip(vs[k], offset);
                        }
                    }
                    return Err(e);
                },
            }
            assert(stored.take(out@.len() as int) =~= record_lines(all.take(i + 1)));
        } else {
            assert(record_lines(all.take(i + 1)) == record_lines(all.take(i as int)));
        }
        i = i + 1;
    }
    proof {
        assert(all.take(lines@.len() as int) =~= all);
        assert(out@.len() == stored.len());
        assert forall|vs: Seq<TaskView>|
            (forall|i: int| 0 <= i < vs.len() ==> (#[trigger] vs[i]).encodable(offset))
                && stored == #[trigger] records_of(vs) implies views(out@)
            == vs by {
            assert forall|j: int| 0 <= j < vs.len() implies views(out@)[j] == vs[j] by {
                crate::task::lemma_record_round_trip(vs[j], offset);
                assert(stored[j] == record_text(vs[j]));
                assert(read_as(stored[j], offset, out@[j]@));
            }
            assert(views(out@) =~= vs);
        }
    }
    Ok(out)
}

/// `after` is `before` followed by the tasks that the record lines of `text`
/// read as under `offset`.
pub open spec fn appended(before: Seq<Task>, after: Seq<Task>, text: Seq<char>, offset: i32) -> bool {
    &&& after.len() == before.len() + stored_lines(text).len()
    &&& after.take(before.len() as int) == before
    &&& forall|i: int|
        0 <= i < stored_lines(text).len() ==> read_as(
            #[trigger] stored_lines(text)[i],
            offset,
            after[before.len() + i]@,
        )
}

/// Every record line of `text` is a record with canonical timestamps.
pub open spec fn all_records(text: Seq<char>) -> bool {
    forall|i: int|
        0 <= i < stored_lines(text).len() ==> record_shape(#[trigger] stored_lines(text)[i])
            && stamps_canonical(stored_lines(text)[i])
}

/// Appends to `dest` the tasks of a partition's stored text; see `fill`. On
/// failure `dest` is left as it was.
fn append_partition(dest: &mut Vec<Task>, text: &str, offset: i32) -> (r: Result<(), TaskError>)
    requires
        -86400 < offset < 86400,
    ensures
        r is Ok ==> appended(old(dest)@, final(dest)@, text@, offset),
        r matches Err(e) ==> e == TaskError::MalformedRecord && final(dest)@ == old(dest)@
            && !all_records(text@),
        all_records(text@) ==> r is Ok,
{
    match fill(text, offset) {
        Ok(mut v) => {
            let ghost before = dest@;
            let ghost got = v@;
            dest.append(&mut v);
            assert(dest@.take(before.len() as int) =~= before);
            assert forall|i: int| 0 <= i < stored_lines(text@).len() implies read_as(
                #[trigger] stored_lines(text@)[i],
                offset,
                dest@[before.len() + i]@,
            ) by {
                assert(dest@[before.len() + i] == got[i]);
            }
            Ok(())
        },
        Err(e) => Err(e),
    }
}

/// Loads the three partitions from their stored texts, with timestamps in the
/// local zone whose UTC offset is `offset`, appending each to its partition in
/// turn: active, completed, deleted. The first partition whose text holds a
/// line that is not a record fails the load with `MalformedRecord`; none of
/// its tasks are kept, and the partitions after it are not read.
pub fn load(
    tasks: &mut Tasks,
    active_text: &str,
    completed_text: &str,
    deleted_text: &str,
    offset: i32,
) -> (r: Result<(), TaskError>)
    requires
        -86400 < offset < 86400,
    ensures
        r is Ok ==> appended(old(tasks).active@, final(tasks).active@, active_text@, offset)
            && appended(old(tasks).completed@, final(tasks).completed@, completed_text@, offset)
            && appended(old(tasks).deleted@, final(tasks).deleted@, deleted_text@, offset),
        r matches Err(e) ==> e == TaskError::MalformedRecord && final(tasks).deleted@ == old(
            tasks,
        ).deleted@ && {
            ||| (!all_records(active_text@) && final(tasks).active@ == old(tasks).active@
                && final(tasks).completed@ == old(tasks).completed@)
            ||| (appended(old(tasks).active@, final(tasks).active@, active_text@, offset)
                && !all_records(completed_text@) && final(tasks).completed@ == old(
                tasks,
            ).completed@)
            ||| (appended(old(tasks).active@, final(tasks).active@, active_text@, offset)
                && appended(
                old(tasks).completed@,
                final(tasks).completed@,
                completed_text@,
                offset,
            ) && !all_records(deleted_text@))
        },
        all_records(active_text@) && all_records(completed_text@) && all_records(deleted_text@)
            ==> r is Ok,
{
    match append_partition(&mut tasks.active, active_text, offset) {
        Ok(()) => {},
        Err(e) => {
            return Err(e);
        },
    }
    match append_partition(&mut tasks.completed, completed_text, offset) {
        Ok(()) => {},
        Err(e) => {
            return Err(e);
        },
    }
    append_partition(&mut tasks.deleted, deleted_text, offset)
}

} // verus!
