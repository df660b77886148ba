//! The persisted form of a collection: a line-oriented text format
//! with verified encoding and decoding, so that a stored collection
//! always loads back as the sorted form of itself.
//!
//! One record per line. The first line counts the projects. Each
//! project contributes a header line — the character-length of its
//! name, a space, the name, then on the next line its task count — and
//! one line per task: a priority letter, a deadline field (`-` for
//! none, `s` or `n` and the seconds since the Unix epoch, `n` marking
//! a moment before it), and the length-prefixed description. Length
//! prefixes make escaping unnecessary: names and descriptions are
//! taken verbatim, whatever characters they hold.

use vstd::prelude::*;

use crate::error::RustaskError;
use crate::order::{lemma_insert_ordered_at, lemma_sort_ordered_elems, ordered};
use crate::project::{lemma_sort_tasks_sorted, sort_tasks, task_le_fn, ProjView, Project};
use crate::task::{Deadline, Priority, Task, TaskView};
use crate::text::{chars_to_string, decimal, digits_value, is_digit, digit_val, push_str_chars};
use crate::{lemma_sort_projects_sorted, proj_le_fn, project_insert_position, sort_projects};

verus! {

/// The priority letter of a task record.
pub open spec fn pri_char(p: Option<Priority>) -> char {
    match p {
        Some(Priority::Urgent) => 'U',
        Some(Priority::High) => 'H',
        Some(Priority::Normal) => 'N',
        Some(Priority::Low) => 'L',
        Some(Priority::Note) => 'T',
        None => '-',
    }
}

/// The priority a record letter stands for, if it is one.
pub open spec fn pri_of_char(c: char) -> Option<Option<Priority>> {
    if c == 'U' {
        Some(Some(Priority::Urgent))
    } else if c == 'H' {
        Some(Some(Priority::High))
    } else if c == 'N' {
        Some(Some(Priority::Normal))
    } else if c == 'L' {
        Some(Some(Priority::Low))
    } else if c == 'T' {
        Some(Some(Priority::Note))
    } else if c == '-' {
        Some(None)
    } else {
        None
    }
}

/// Magnitude of a timestamp: the distance from zero, as a natural.
pub open spec fn secs_mag(secs: int) -> nat {
    if secs >= 0 {
        secs as nat
    } else {
        (-secs) as nat
    }
}

/// The deadline field of a task record.
pub open spec fn deadline_chars(d: Option<int>) -> Seq<char> {
    match d {
        None => seq!['-'],
        Some(secs) => if secs >= 0 {
            seq!['s'] + decimal(secs_mag(secs))
        } else {
            seq!['n'] + decimal(secs_mag(secs))
        },
    }
}

/// One task record: priority letter, deadline field, length-prefixed
/// description, newline.
pub open spec fn encode_task(t: TaskView) -> Seq<char> {
    seq![pri_char(t.priority)] + seq![' '] + deadline_chars(t.deadline) + seq![' '] + decimal(
        t.description.len(),
    ) + seq![' '] + t.description + seq!['\n']
}

/// The task records of a project, in order.
pub open spec fn encode_tasks(ts: Seq<TaskView>) -> Seq<char>
    decreases ts.len(),
{
    if ts.len() == 0 {
        Seq::empty()
    } else {
        encode_task(ts[0]) + encode_tasks(ts.skip(1))
    }
}

/// One project: its length-prefixed name, a task-count line, then its
/// task records.
pub open spec fn encode_project(p: ProjView) -> Seq<char> {
    decimal(p.name.len()) + seq![' '] + p.name + seq!['\n'] + decimal(p.tasks.len()) + seq!['\n']
        + encode_tasks(p.tasks)
}

/// The project records of a collection, in order.
pub open spec fn encode_projects(ps: Seq<ProjView>) -> Seq<char>
    decreases ps.len(),
{
    if ps.len() == 0 {
        Seq::empty()
    } else {
        encode_project(ps[0]) + encode_projects(ps.skip(1))
    }
}

/// A whole collection: a project-count line, then the projects.
pub open spec fn encode_collection(ps: Seq<ProjView>) -> Seq<char> {
    decimal(ps.len()) + seq!['\n'] + encode_projects(ps)
}

/// The longest digit prefix of `s`.
pub open spec fn digit_prefix(s: Seq<char>) -> Seq<char>
    decreases s.len(),
{
    if s.len() == 0 || !is_digit(s[0]) {
        Seq::empty()
    } else {
        seq![s[0]] + digit_prefix(s.skip(1))
    }
}

/// Reads a number: its digits must be non-empty and their value must
/// fit an unsigned 64-bit word. Gives the value and what follows.
pub open spec fn dec_number(s: Seq<char>) -> Option<(u64, Seq<char>)> {
    let p = digit_prefix(s);
    if p.len() == 0 || digits_value(p) > u64::MAX {
        None
    } else {
        Some((digits_value(p) as u64, s.skip(p.len() as int)))
    }
}

/// Reads one expected character.
pub open spec fn dec_char(s: Seq<char>, c: char) -> Option<Seq<char>> {
    if s.len() > 0 && s[0] == c {
        Some(s.skip(1))
    } else {
        None
    }
}

/// Reads `n` characters verbatim.
pub open spec fn dec_take(s: Seq<char>, n: int) -> Option<(Seq<char>, Seq<char>)> {
    if 0 <= n <= s.len() {
        Some((s.take(n), s.skip(n)))
    } else {
        None
    }
}

/// Reads a deadline field.
pub open spec fn dec_deadline(s: Seq<char>) -> Option<(Option<int>, Seq<char>)> {
    if s.len() == 0 {
        None
    } else if s[0] == '-' {
        Some((None, s.skip(1)))
    } else if s[0] == 's' {
        match dec_number(s.skip(1)) {
            Some((mag, rest)) => if mag <= i64::MAX {
                Some((Some(mag as int), rest))
            } else {
                None
            },
            None => None,
        }
    } else if s[0] == 'n' {
        match dec_number(s.skip(1)) {
            Some((mag, rest)) => if mag >= 1 && mag <= (i64::MAX as u64) + 1 {
                Some((Some(-(mag as int)), rest))
            } else {
                None
            },
            None => None,
        }
    } else {
        None
    }
}

/// Reads one task record.
pub open spec fn dec_task(s: Seq<char>) -> Option<(TaskView, Seq<char>)> {
    if s.len() == 0 || pri_of_char(s[0]) is None {
        None
    } else {
        let pri = pri_of_char(s[0])->0;
        match dec_char(s.skip(1), ' ') {
            None => None,
            Some(s1) => match dec_deadline(s1) {
                None => None,
                Some((dl, s2)) => match dec_char(s2, ' ') {
                    None => None,
                    Some(s3) => match dec_number(s3) {
                        None => None,
                        Some((len, s4)) => match dec_char(s4, ' ') {
                            None => None,
                            Some(s5) => match dec_take(s5, len as int) {
                                None => None,
                                Some((desc, s6)) => match dec_char(s6, '\n') {
                                    None => None,
                                    Some(s7) => Some(
                                        (
                                            TaskView {
                                                description: desc,
                                                priority: pri,
                                                deadline: dl,
                                            },
                                            s7,
                                        ),
                                    ),
                                },
                            },
                        },
                    },
                },
            },
        }
    }
}

/// Reads `n` task records.
pub open spec fn dec_tasks(s: Seq<char>, n: nat) -> Option<(Seq<TaskView>, Seq<char>)>
    decreases n,
{
    if n == 0 {
        Some((Seq::empty(), s))
    } else {
        match dec_task(s) {
            None => None,
            Some((t, rest)) => match dec_tasks(rest, (n - 1) as nat) {
                None => None,
                Some((ts, rest2)) => Some((seq![t] + ts, rest2)),
            },
        }
    }
}

/// Reads one project record.
pub open spec fn dec_project(s: Seq<char>) -> Option<(ProjView, Seq<char>)> {
    match dec_number(s) {
        None => None,
        Some((namelen, s1)) => match dec_char(s1, ' ') {
            None => None,
            Some(s2) => match dec_take(s2, namelen as int) {
                None => None,
                Some((name, s3)) => match dec_char(s3, '\n') {
                    None => None,
                    Some(s4) => match dec_number(s4) {
                        None => None,
                        Some((count, s5)) => match dec_char(s5, '\n') {
                            None => None,
                            Some(s6) => match dec_tasks(s6, count as nat) {
                                None => None,
                                Some((ts, s7)) => Some(
                                    (ProjView { name: name, tasks: ts }, s7),
                                ),
                            },
                        },
                    },
                },
            },
        },
    }
}

/// Reads `n` project records.
pub open spec fn dec_projects(s: Seq<char>, n: nat) -> Option<(Seq<ProjView>, Seq<char>)>
    decreases n,
{
    if n == 0 {
        Some((Seq::empty(), s))
    } else {
        match dec_project(s) {
            None => None,
            Some((p, rest)) => match dec_projects(rest, (n - 1) as nat) {
                None => None,
                Some((ps, rest2)) => Some((seq![p] + ps, rest2)),
            },
        }
    }
}

/// Reads a whole collection: the count line, that many projects, and
/// nothing after them.
pub open spec fn dec_collection(s: Seq<char>) -> Option<Seq<ProjView>> {
    match dec_number(s) {
        None => None,
        Some((n, s1)) => match dec_char(s1, '\n') {
            None => None,
            Some(s2) => match dec_projects(s2, n as nat) {
                None => None,
                Some((ps, rest)) => if rest.len() == 0 {
                    Some(ps)
                } else {
                    None
                },
            },
        },
    }
}

/// A task that the storage format can hold: the description length and
/// the deadline seconds fit the fields of a record. Every task built
/// from machine values satisfies this.
pub open spec fn task_encodable(t: TaskView) -> bool {
    t.description.len() <= u64::MAX && match t.deadline {
        Some(d) => i64::MIN <= d <= i64::MAX,
        None => true,
    }
}

pub open spec fn project_encodable(p: ProjView) -> bool {
    p.name.len() <= u64::MAX && p.tasks.len() <= u64::MAX && forall|i: int|
        0 <= i < p.tasks.len() ==> task_encodable(#[trigger] p.tasks[i])
}

pub open spec fn collection_encodable(ps: Seq<ProjView>) -> bool {
    ps.len() <= u64::MAX && forall|i: int|
        0 <= i < ps.len() ==> project_encodable(#[trigger] ps[i])
}

/// A digit string followed by anything that does not begin with a
/// digit is its own longest digit prefix.
proof fn lemma_digit_prefix_concat(p: Seq<char>, rest: Seq<char>)
    requires
        forall|i: int| 0 <= i < p.len() ==> is_digit(#[trigger] p[i]),
        rest.len() == 0 || !is_digit(rest[0]),
    ensures
        digit_prefix(p + rest) == p,
    decreases p.len(),
{
    if p.len() == 0 {
        assert(p + rest =~= rest);
        assert(digit_prefix(p + rest) =~= p);
    } else {
        assert((p + rest)[0] == p[0]);
        assert((p + rest).skip(1) =~= p.skip(1) + rest);
        lemma_digit_prefix_concat(p.skip(1), rest);
        assert(digit_prefix(p + rest) =~= seq![p[0]] + p.skip(1));
        assert(seq![p[0]] + p.skip(1) =~= p);
    }
}

/// The value of a digit string is not negative.
proof fn lemma_digits_value_nonneg(p: Seq<char>)
    requires
        forall|i: int| 0 <= i < p.len() ==> is_digit(#[trigger] p[i]),
    ensures
        digits_value(p) >= 0,
    decreases p.len(),
{
    if p.len() > 0 {
        assert(forall|i: int|
            0 <= i < p.drop_last().len() ==> is_digit(#[trigger] p.drop_last()[i]));
        lemma_digits_value_nonneg(p.drop_last());
    }
}

/// Reading a written numeral gives the number back, whenever what
/// follows does not begin with a digit.
proof fn lemma_dec_number(n: u64, rest: Seq<char>)
    requires
        rest.len() == 0 || !is_digit(rest[0]),
    ensures
        dec_number(decimal(n as nat) + rest) == Some((n, rest)),
{
    crate::text::lemma_decimal_all_digits(n as nat);
    crate::text::lemma_decimal_value(n as nat);
    lemma_digit_prefix_concat(decimal(n as nat), rest);
    assert((decimal(n as nat) + rest).skip(decimal(n as nat).len() as int) =~= rest);
}

/// Reading a written deadline field gives the deadline back, whenever
/// what follows does not begin with a digit.
proof fn lemma_dec_deadline(d: Option<int>, rest: Seq<char>)
    requires
        rest.len() == 0 || !is_digit(rest[0]),
        match d {
            Some(secs) => i64::MIN <= secs <= i64::MAX,
            None => true,
        },
    ensures
        dec_deadline(deadline_chars(d) + rest) == Some((d, rest)),
{
    match d {
        None => {
            assert((seq!['-'] + rest)[0] == '-');
            assert((seq!['-'] + rest).skip(1) =~= rest);
        },
        Some(secs) => {
            let mag = secs_mag(secs);
            let tag = if secs >= 0 {
                's'
            } else {
                'n'
            };
            let e = deadline_chars(d) + rest;
            assert(e =~= seq![tag] + (decimal(mag) + rest));
            assert(e[0] == tag);
            assert(e.skip(1) =~= decimal(mag) + rest);
            assert(mag <= u64::MAX);
            lemma_dec_number(mag as u64, rest);
        },
    }
}

/// The letter written for a priority reads back as that priority.
proof fn lemma_pri_char(p: Option<Priority>)
    ensures
        pri_of_char(pri_char(p)) == Some(p),
{
}

/// Reading a written task record gives the task back.
proof fn lemma_dec_task(t: TaskView, rest: Seq<char>)
    requires
        task_encodable(t),
    ensures
        dec_task(encode_task(t) + rest) == Some((t, rest)),
{
    let e = encode_task(t) + rest;
    let s1 = seq![' '] + (deadline_chars(t.deadline) + (seq![' '] + (decimal(t.description.len())
        + (seq![' '] + (t.description + (seq!['\n'] + rest))))));
    assert(e =~= seq![pri_char(t.priority)] + s1);
    assert(e[0] == pri_char(t.priority));
    lemma_pri_char(t.priority);
    assert(e.skip(1) =~= s1);
    let s2 = deadline_chars(t.deadline) + (seq![' '] + (decimal(t.description.len()) + (seq![' ']
        + (t.description + (seq!['\n'] + rest)))));
    assert(s1[0] == ' ');
    assert(s1.skip(1) =~= s2);
    let after_dl = seq![' '] + (decimal(t.description.len()) + (seq![' '] + (t.description + (
    seq!['\n'] + rest))));
    assert(after_dl[0] == ' ');
    assert(!is_digit(' '));
    lemma_dec_deadline(t.deadline, after_dl);
    assert(dec_deadline(s2) == Some((t.deadline, after_dl)));
    let s3 = decimal(t.description.len()) + (seq![' '] + (t.description + (seq!['\n'] + rest)));
    assert(after_dl.skip(1) =~= s3);
    let after_len = seq![' '] + (t.description + (seq!['\n'] + rest));
    lemma_dec_number(t.description.len() as u64, after_len);
    assert(dec_number(s3) == Some((t.description.len() as u64, after_len)));
    let s5 = t.description + (seq!['\n'] + rest);
    assert(after_len[0] == ' ');
    assert(after_len.skip(1) =~= s5);
    assert(s5.take(t.description.len() as int) =~= t.description);
    assert(s5.skip(t.description.len() as int) =~= seq!['\n'] + rest);
    let s6 = seq!['\n'] + rest;
    assert(s6[0] == '\n');
    assert(s6.skip(1) =~= rest);
}

/// Reading the written records of a task sequence gives it back.
proof fn lemma_dec_tasks(ts: Seq<TaskView>, rest: Seq<char>)
    requires
        forall|i: int| 0 <= i < ts.len() ==> task_encodable(#[trigger] ts[i]),
    ensures
        dec_tasks(encode_tasks(ts) + rest, ts.len()) == Some((ts, rest)),
    decreases ts.len(),
{
    if ts.len() == 0 {
        assert(encode_tasks(ts) + rest =~= rest);
    } else {
        let e = encode_tasks(ts) + rest;
        assert(e =~= encode_task(ts[0]) + (encode_tasks(ts.skip(1)) + rest));
        lemma_dec_task(ts[0], encode_tasks(ts.skip(1)) + rest);
        lemma_dec_tasks(ts.skip(1), rest);
        assert(seq![ts[0]] + ts.skip(1) =~= ts);
    }
}

/// Reading a written project record gives the project back.
proof fn lemma_dec_project(p: ProjView, rest: Seq<char>)
    requires
        project_encodable(p),
    ensures
        dec_project(encode_project(p) + rest) == Some((p, rest)),
{
    let e = encode_project(p) + rest;
    let s1 = seq![' '] + (p.name + (seq!['\n'] + (decimal(p.tasks.len()) + (seq!['\n']
        + (encode_tasks(p.tasks) + rest)))));
    assert(e =~= decimal(p.name.len()) + s1);
    lemma_dec_number(p.name.len() as u64, s1);
    assert(dec_number(e) == Some((p.name.len() as u64, s1)));
    let s2 = p.name + (seq!['\n'] + (decimal(p.tasks.len()) + (seq!['\n'] + (encode_tasks(p.tasks)
        + rest))));
    assert(s1[0] == ' ');
    assert(s1.skip(1) =~= s2);
    assert(s2.take(p.name.len() as int) =~= p.name);
    let s3 = seq!['\n'] + (decimal(p.tasks.len()) + (seq!['\n'] + (encode_tasks(p.tasks) + rest)));
    assert(s2.skip(p.name.len() as int) =~= s3);
    assert(s3[0] == '\n');
    let s4 = decimal(p.tasks.len()) + (seq!['\n'] + (encode_tasks(p.tasks) + rest));
    assert(s3.skip(1) =~= s4);
    let s5 = seq!['\n'] + (encode_tasks(p.tasks) + rest);
    lemma_dec_number(p.tasks.len() as u64, s5);
    assert(s5[0] == '\n');
    let s6 = encode_tasks(p.tasks) + rest;
    assert(s5.skip(1) =~= s6);
    lemma_dec_tasks(p.tasks, rest);
}

/// Reading the written records of a project sequence gives it back.
proof fn lemma_dec_projects(ps: Seq<ProjView>, rest: Seq<char>)
    requires
        forall|i: int| 0 <= i < ps.len() ==> project_encodable(#[trigger] ps[i]),
    ensures
        dec_projects(encode_projects(ps) + rest, ps.len()) == Some((ps, rest)),
    decreases ps.len(),
{
    if ps.len() == 0 {
        assert(encode_projects(ps) + rest =~= rest);
    } else {
        let e = encode_projects(ps) + rest;
        assert(e =~= encode_project(ps[0]) + (encode_projects(ps.skip(1)) + rest));
        lemma_dec_project(ps[0], encode_projects(ps.skip(1)) + rest);
        lemma_dec_projects(ps.skip(1), rest);
        assert(seq![ps[0]] + ps.skip(1) =~= ps);
    }
}

/// The storage round trip: the text written for any collection the
/// machine can hold reads back as exactly that collection.
pub proof fn lemma_encode_decode(ps: Seq<ProjView>)
    requires
        collection_encodable(ps),
    ensures
        dec_collection(encode_collection(ps)) == Some(ps),
{
    let e = encode_collection(ps);
    let s1 = seq!['\n'] + encode_projects(ps);
    assert(e =~= decimal(ps.len()) + s1);
    lemma_dec_number(ps.len() as u64, s1);
    assert(s1[0] == '\n');
    assert(s1.skip(1) =~= encode_projects(ps));
    assert(encode_projects(ps) =~= encode_projects(ps) + Seq::<char>::empty());
    lemma_dec_projects(ps, Seq::empty());
}

/// Writing one more task's record extends the records of the prefix.
proof fn lemma_encode_tasks_take(ts: Seq<TaskView>, i: int)
    requires
        0 <= i < ts.len(),
    ensures
        encode_tasks(ts.take(i + 1)) == encode_tasks(ts.take(i)) + encode_task(ts[i]),
    decreases i,
{
    if i == 0 {
        assert(ts.take(1) =~= seq![ts[0]]);
        assert(ts.take(1).skip(1) =~= Seq::<TaskView>::empty());
        assert(ts.take(0) =~= Seq::<TaskView>::empty());
        assert(encode_tasks(ts.take(1)) =~= Seq::<char>::empty() + encode_task(ts[0]));
    } else {
        lemma_encode_tasks_take(ts.skip(1), i - 1);
        assert(ts.take(i + 1).skip(1) =~= ts.skip(1).take(i));
        assert(ts.take(i).skip(1) =~= ts.skip(1).take(i - 1));
        assert(ts.take(i + 1)[0] == ts[0]);
        assert(ts.take(i)[0] == ts[0]);
        assert(ts.skip(1)[i - 1] == ts[i]);
        assert(encode_tasks(ts.take(i + 1)) =~= encode_tasks(ts.take(i)) + encode_task(ts[i]));
    }
}

/// Writing one more project's record extends the records of the prefix.
proof fn lemma_encode_projects_take(ps: Seq<ProjView>, i: int)
    requires
        0 <= i < ps.len(),
    ensures
        encode_projects(ps.take(i + 1)) == encode_projects(ps.take(i)) + encode_project(ps[i]),
    decreases i,
{
    if i == 0 {
        assert(ps.take(1) =~= seq![ps[0]]);
        assert(ps.take(1).skip(1) =~= Seq::<ProjView>::empty());
        assert(ps.take(0) =~= Seq::<ProjView>::empty());
        assert(ps.take(1)[0] == ps[0]);
        assert(encode_projects(Seq::<ProjView>::empty()) == Seq::<char>::empty());
        assert(encode_projects(ps.take(1)) == encode_project(ps[0]) + Seq::<char>::empty());
        assert(encode_projects(ps.take(1)) =~= Seq::<char>::empty() + encode_project(ps[0]));
    } else {
        lemma_encode_projects_take(ps.skip(1), i - 1);
        assert(ps.take(i + 1).skip(1) =~= ps.skip(1).take(i));
        assert(ps.take(i).skip(1) =~= ps.skip(1).take(i - 1));
        assert(ps.take(i + 1)[0] == ps[0]);
        assert(ps.take(i)[0] == ps[0]);
        assert(ps.skip(1)[i - 1] == ps[i]);
        assert(encode_projects(ps.take(i + 1)) =~= encode_projects(ps.take(i)) + encode_project(
            ps[i],
        ));
    }
}

/// Executable priority letter.
fn pri_char_of(p: &Option<Priority>) -> (c: char)
    ensures
        c == pri_char(*p),
{
    match p {
        Some(Priority::Urgent) => 'U',
        Some(Priority::High) => 'H',
        Some(Priority::Normal) => 'N',
        Some(Priority::Low) => 'L',
        Some(Priority::Note) => 'T',
        None => '-',
    }
}

/// Appends one task record.
fn push_task_record(out: &mut Vec<char>, t: &Task)
    ensures
        final(out)@ == old(out)@ + encode_task(t@),
{
    out.push(pri_char_of(&t.priority));
    out.push(' ');
    match &t.deadline {
        None => {
            out.push('-');
        },
        Some(d) => {
            if d.secs >= 0 {
                out.push('s');
                crate::text::push_decimal(d.secs as u64, out);
            } else {
                out.push('n');
                let mag: u64 = ((-(d.secs + 1)) as u64) + 1;
                proof {
                    assert(mag as nat == secs_mag(d.secs as int));
                }
                crate::text::push_decimal(mag, out);
            }
        },
    }
    out.push(' ');
    let len = t.description.as_str().unicode_len();
    crate::text::push_decimal(len as u64, out);
    out.push(' ');
    push_str_chars(out, t.description.as_str());
    out.push('\n');
    proof {
        assert(out@ =~= old(out)@ + encode_task(t@));
    }
}

/// Appends one project record.
fn push_project_record(out: &mut Vec<char>, p: &Project)
    ensures
        final(out)@ == old(out)@ + encode_project(p@),
{
    let namelen = p.name.as_str().unicode_len();
    crate::text::push_decimal(namelen as u64, out);
    out.push(' ');
    push_str_chars(out, p.name.as_str());
    out.push('\n');
    let n = p.tasks.len();
    crate::text::push_decimal(n as u64, out);
    out.push('\n');
    let ghost base = out@;
    let mut i: usize = 0;
    while i < n
        invariant
            n == p.tasks@.len(),
            i <= n,
            out@ == base + encode_tasks(p.tasks.deep_view().take(i as int)),
        decreases n - i,
    {
        push_task_record(out, &p.tasks[i]);
        proof {
            lemma_encode_tasks_take(p.tasks.deep_view(), i as int);
            assert(p.tasks.deep_view()[i as int] == p.tasks@[i as int]@);
            assert(out@ =~= base + encode_tasks(p.tasks.deep_view().take(i + 1)));
        }
        i = i + 1;
    }
    proof {
        assert(p.tasks.deep_view().take(n as int) =~= p.tasks.deep_view());
        assert(out@ =~= old(out)@ + encode_project(p@));
    }
}

/// Writes a collection in its stored text form.
pub fn store_tasks(tasks: &Vec<Project>) -> (r: String)
    ensures
        r@ == encode_collection(tasks.deep_view()),
{
    let mut out: Vec<char> = Vec::new();
    let n = tasks.len();
    crate::text::push_decimal(n as u64, &mut out);
    out.push('\n');
    let ghost base = out@;
    let mut i: usize = 0;
    while i < n
        invariant
            n == tasks@.len(),
            i <= n,
            out@ == base + encode_projects(tasks.deep_view().take(i as int)),
        decreases n - i,
    {
        push_project_record(&mut out, &tasks[i]);
        proof {
            lemma_encode_projects_take(tasks.deep_view(), i as int);
            assert(tasks.deep_view()[i as int] == tasks@[i as int]@);
            assert(out@ =~= base + encode_projects(tasks.deep_view().take(i + 1)));
        }
        i = i + 1;
    }
    proof {
        assert(tasks.deep_view().take(n as int) =~= tasks.deep_view());
        assert(out@ =~= encode_collection(tasks.deep_view()));
    }
    chars_to_string(out)
}

/// Every character of a longest digit prefix is a digit.
proof fn lemma_digit_prefix_digits(s: Seq<char>)
    ensures
        forall|i: int| 0 <= i < digit_prefix(s).len() ==> is_digit(#[trigger] digit_prefix(s)[i]),
    decreases s.len(),
{
    if s.len() > 0 && is_digit(s[0]) {
        lemma_digit_prefix_digits(s.skip(1));
        assert forall|i: int| 0 <= i < digit_prefix(s).len() implies is_digit(
            #[trigger] digit_prefix(s)[i],
        ) by {
            if i > 0 {
                assert(digit_prefix(s)[i] == digit_prefix(s.skip(1))[i - 1]);
            }
        }
    }
}

/// Scanning one digit peels it off the longest digit prefix.
proof fn lemma_digit_prefix_step(v: Seq<char>, j: int)
    requires
        0 <= j < v.len(),
        is_digit(v[j]),
    ensures
        digit_prefix(v.skip(j)) == seq![v[j]] + digit_prefix(v.skip(j + 1)),
{
    assert(v.skip(j)[0] == v[j]);
    assert(v.skip(j).skip(1) =~= v.skip(j + 1));
}

/// A digit string is worth at least its digit prefix: appending digits
/// never shrinks the value.
proof fn lemma_digits_value_extension(p: Seq<char>, q: Seq<char>)
    requires
        forall|i: int| 0 <= i < p.len() ==> is_digit(#[trigger] p[i]),
        forall|i: int| 0 <= i < q.len() ==> is_digit(#[trigger] q[i]),
    ensures
        digits_value(p + q) >= digits_value(p),
    decreases q.len(),
{
    if q.len() == 0 {
        assert(p + q =~= p);
    } else {
        assert(forall|i: int|
            0 <= i < q.drop_last().len() ==> is_digit(#[trigger] q.drop_last()[i]));
        lemma_digits_value_extension(p, q.drop_last());
        assert((p + q).drop_last() =~= p + q.drop_last());
        assert(forall|i: int|
            0 <= i < (p + q.drop_last()).len() ==> is_digit(#[trigger] (p + q.drop_last())[i]));
        lemma_digits_value_nonneg(p + q.drop_last());
        assert((p + q).last() == q.last());
        assert(digits_value(p + q) == digits_value(p + q.drop_last()) * 10 + digit_val(q.last()));
    }
}

/// Characters of a string slice, as a vector.
fn str_to_chars(s: &str) -> (v: Vec<char>)
    ensures
        v@ == s@,
{
    let n = s.unicode_len();
    let mut v: Vec<char> = Vec::new();
    let mut i: usize = 0;
    while i < n
        invariant
            n == s@.len(),
            i <= n,
            v@ == s@.take(i as int),
        decreases n - i,
    {
        v.push(s.get_char(i));
        proof {
            assert(v@ =~= s@.take(i + 1));
        }
        i = i + 1;
    }
    proof {
        assert(s@.take(n as int) =~= s@);
    }
    v
}

/// Whether a character is a decimal digit.
fn is_digit_char(c: char) -> (r: bool)
    ensures
        r == is_digit(c),
{
    let u = c as u32;
    48 <= u && u <= 57
}

/// Reads a number starting at `i`, as `dec_number` does on the suffix.
fn dec_number_at(v: &Vec<char>, i: usize) -> (r: Option<(u64, usize)>)
    requires
        i <= v@.len(),
    ensures
        match r {
            Some(p) => i <= p.1 <= v@.len() && dec_number(v@.skip(i as int)) == Some(
                (p.0, v@.skip(p.1 as int)),
            ),
            None => dec_number(v@.skip(i as int)) is None,
        },
{
    let n = v.len();
    let mut j: usize = i;
    let mut value: u64 = 0;
    proof {
        assert(v@.subrange(i as int, i as int) =~= Seq::<char>::empty());
    }
    while j < n && is_digit_char(v[j])
        invariant
            i <= j <= n,
            n == v@.len(),
            forall|k: int| i <= k < j ==> is_digit(#[trigger] v@[k]),
            digit_prefix(v@.skip(i as int)) == v@.subrange(i as int, j as int) + digit_prefix(
                v@.skip(j as int),
            ),
            value as int == digits_value(v@.subrange(i as int, j as int)),
        decreases n - j,
    {
        let d: u64 = (v[j] as u32 - 48) as u64;
        proof {
            assert(is_digit(v@[j as int]));
            assert(d as int == digit_val(v@[j as int]));
            lemma_digit_prefix_step(v@, j as int);
            assert(v@.subrange(i as int, j + 1).drop_last() =~= v@.subrange(i as int, j as int));
            assert(v@.subrange(i as int, j + 1).last() == v@[j as int]);
        }
        if value > (u64::MAX - d) / 10 {
            proof {
                let p = digit_prefix(v@.skip(i as int));
                let head = v@.subrange(i as int, j + 1);
                assert(digit_prefix(v@.skip(i as int)) =~= head + digit_prefix(v@.skip(j + 1)));
                assert(digits_value(head) == value * 10 + d);
                assert(digits_value(head) > u64::MAX) by {
                    assert(value >= (u64::MAX - d) / 10 + 1);
                    assert(value * 10 >= ((u64::MAX - d) / 10 + 1) * 10) by (nonlinear_arith)
                        requires
                            value >= (u64::MAX - d) / 10 + 1,
                    ;
                    assert(((u64::MAX - d) / 10) * 10 + 10 > u64::MAX - d) by {
                        vstd::arithmetic::div_mod::lemma_fundamental_div_mod(
                            (u64::MAX - d) as int,
                            10,
                        );
                    }
                }
                assert(forall|k: int| 0 <= k < head.len() ==> is_digit(#[trigger] head[k]));
                lemma_digit_prefix_digits(v@.skip(j + 1));
                lemma_digits_value_extension(head, digit_prefix(v@.skip(j + 1)));
                assert(digits_value(p) > u64::MAX);
            }
            return None;
        }
        value = value * 10 + d;
        j = j + 1;
    }
    proof {
        if j < n {
            assert(!is_digit(v@[j as int]));
        }
        assert(digit_prefix(v@.skip(j as int)) =~= Seq::<char>::empty());
        assert(digit_prefix(v@.skip(i as int)) =~= v@.subrange(i as int, j as int));
    }
    if j == i {
        return None;
    }
    proof {
        let p = digit_prefix(v@.skip(i as int));
        assert(v@.skip(i as int).skip(p.len() as int) =~= v@.skip(j as int));
    }
    Some((value, j))
}

/// Reads one expected character at `i`, as `dec_char` does.
fn dec_char_at(v: &Vec<char>, i: usize, c: char) -> (r: Option<usize>)
    requires
        i <= v@.len(),
    ensures
        match r {
            Some(j) => j == i + 1 && j <= v@.len() && dec_char(v@.skip(i as int), c) == Some(
                v@.skip(j as int),
            ),
            None => dec_char(v@.skip(i as int), c) is None,
        },
{
    if i < v.len() && v[i] == c {
        proof {
            assert(v@.skip(i as int)[0] == v@[i as int]);
            assert(v@.skip(i as int).skip(1) =~= v@.skip(i + 1));
        }
        Some(i + 1)
    } else {
        None
    }
}

/// Reads a deadline field at `i`, as `dec_deadline` does.
fn dec_deadline_at(v: &Vec<char>, i: usize) -> (r: Option<(Option<i64>, usize)>)
    requires
        i <= v@.len(),
    ensures
        match r {
            Some(p) => p.1 <= v@.len() && dec_deadline(v@.skip(i as int)) == Some(
                (
                    match p.0 {
                        Some(x) => Some(x as int),
                        None => None,
                    },
                    v@.skip(p.1 as int),
                ),
            ),
            None => dec_deadline(v@.skip(i as int)) is None,
        },
{
    if i >= v.len() {
        return None;
    }
    let c = v[i];
    proof {
        assert(v@.skip(i as int)[0] == v@[i as int]);
        assert(v@.skip(i as int).skip(1) =~= v@.skip(i + 1));
    }
    if c == '-' {
        Some((None, i + 1))
    } else if c == 's' {
        match dec_number_at(v, i + 1) {
            None => None,
            Some((mag, j)) => {
                if mag <= i64::MAX as u64 {
                    Some((Some(mag as i64), j))
                } else {
                    None
                }
            },
        }
    } else if c == 'n' {
        match dec_number_at(v, i + 1) {
            None => None,
            Some((mag, j)) => {
                if 1 <= mag && mag <= (i64::MAX as u64) + 1 {
                    let secs: i64 = if mag == (i64::MAX as u64) + 1 {
                        i64::MIN
                    } else {
                        -(mag as i64)
                    };
                    proof {
                        assert(secs as int == -(mag as int));
                    }
                    Some((Some(secs), j))
                } else {
                    None
                }
            },
        }
    } else {
        None
    }
}

/// The priority a record letter stands for, executably.
fn pri_of_char_at(c: char) -> (r: Option<Option<Priority>>)
    ensures
        r == pri_of_char(c),
{
    if c == 'U' {
        Some(Some(Priority::Urgent))
    } else if c == 'H' {
        Some(Some(Priority::High))
    } else if c == 'N' {
        Some(Some(Priority::Normal))
    } else if c == 'L' {
        Some(Some(Priority::Low))
    } else if c == 'T' {
        Some(Some(Priority::Note))
    } else if c == '-' {
        Some(None)
    } else {
        None
    }
}

/// The characters between two positions, as a string.
fn chars_substring(v: &Vec<char>, from: usize, to: usize) -> (r: String)
    requires
        from <= to <= v@.len(),
    ensures
        r@ == v@.subrange(from as int, to as int),
{
    let mut out: Vec<char> = Vec::new();
    let mut k: usize = from;
    while k < to
        invariant
            from <= k <= to <= v@.len(),
            out@ == v@.subrange(from as int, k as int),
        decreases to - k,
    {
        out.push(v[k]);
        proof {
            assert(out@ =~= v@.subrange(from as int, k + 1));
        }
        k = k + 1;
    }
    chars_to_string(out)
}

/// Reads one task record at `i`, as `dec_task` does.
fn dec_task_at(v: &Vec<char>, i: usize) -> (r: Option<(Task, usize)>)
    requires
        i <= v@.len(),
    ensures
        match r {
            Some(p) => p.1 <= v@.len() && dec_task(v@.skip(i as int)) == Some(
                (p.0@, v@.skip(p.1 as int)),
            ),
            None => dec_task(v@.skip(i as int)) is None,
        },
{
    let ghost s = v@.skip(i as int);
    if i >= v.len() {
        return None;
    }
    proof {
        assert(s[0] == v@[i as int]);
        assert(s.skip(1) =~= v@.skip(i + 1));
    }
    let pri = match pri_of_char_at(v[i]) {
        None => {
            return None;
        },
        Some(p) => p,
    };
    let i1 = match dec_char_at(v, i + 1, ' ') {
        None => {
            return None;
        },
        Some(j) => j,
    };
    let (dl, i2) = match dec_deadline_at(v, i1) {
        None => {
            return None;
        },
        Some(p) => p,
    };
    let i3 = match dec_char_at(v, i2, ' ') {
        None => {
            return None;
        },
        Some(j) => j,
    };
    let (len, i4) = match dec_number_at(v, i3) {
        None => {
            return None;
        },
        Some(p) => p,
    };
    let i5 = match dec_char_at(v, i4, ' ') {
        None => {
            return None;
        },
        Some(j) => j,
    };
    if len > (v.len() - i5) as u64 {
        proof {
            assert(v@.skip(i5 as int).len() == v@.len() - i5);
            assert(dec_take(v@.skip(i5 as int), len as int) is None);
        }
        return None;
    }
    let end = i5 + (len as usize);
    let description = chars_substring(v, i5, end);
    proof {
        assert(v@.skip(i5 as int).take(len as int) =~= v@.subrange(i5 as int, end as int));
        assert(v@.skip(i5 as int).skip(len as int) =~= v@.skip(end as int));
    }
    let i6 = match dec_char_at(v, end, '\n') {
        None => {
            return None;
        },
        Some(j) => j,
    };
    let t = Task {
        description,
        priority: pri,
        deadline: match dl {
            Some(secs) => Some(Deadline { secs }),
            None => None,
        },
    };
    Some((t, i6))
}

/// Reads `n` task records at `i`, as `dec_tasks` does.
fn dec_tasks_at(v: &Vec<char>, i: usize, n: u64) -> (r: Option<(Vec<Task>, usize)>)
    requires
        i <= v@.len(),
    ensures
        match r {
            Some(p) => p.1 <= v@.len() && dec_tasks(v@.skip(i as int), n as nat) == Some(
                (p.0.deep_view(), v@.skip(p.1 as int)),
            ),
            None => dec_tasks(v@.skip(i as int), n as nat) is None,
        },
{
    let mut ts: Vec<Task> = Vec::new();
    let mut j: usize = i;
    let mut k: u64 = 0;
    proof {
        assert(ts.deep_view() =~= Seq::<TaskView>::empty());
    }
    while k < n
        invariant
            k <= n,
            j <= v@.len(),
            ({
                let tail = dec_tasks(v@.skip(j as int), (n - k) as nat);
                dec_tasks(v@.skip(i as int), n as nat) == match tail {
                    None => None::<(Seq<TaskView>, Seq<char>)>,
                    Some((ts2, rest)) => Some((ts.deep_view() + ts2, rest)),
                }
            }),
        decreases n - k,
    {
        let ghost prev = ts.deep_view();
        match dec_task_at(v, j) {
            None => {
                proof {
                    assert(dec_tasks(v@.skip(j as int), (n - k) as nat) is None);
                }
                return None;
            },
            Some((t, j2)) => {
                let ghost tv = t@;
                ts.push(t);
                proof {
                    assert(ts.deep_view() =~= prev.push(tv));
                    let tail2 = dec_tasks(v@.skip(j2 as int), (n - k - 1) as nat);
                    assert(dec_tasks(v@.skip(j as int), (n - k) as nat) == match tail2 {
                        None => None::<(Seq<TaskView>, Seq<char>)>,
                        Some((ts2, rest)) => Some((seq![tv] + ts2, rest)),
                    });
                    if let Some((ts2, rest)) = tail2 {
                        assert(prev + (seq![tv] + ts2) =~= prev.push(tv) + ts2);
                    }
                }
                j = j2;
                k = k + 1;
                proof {
                    let tail = dec_tasks(v@.skip(j as int), (n - k) as nat);
                    assert(dec_tasks(v@.skip(i as int), n as nat) == match tail {
                        None => None::<(Seq<TaskView>, Seq<char>)>,
                        Some((ts2, rest)) => Some((ts.deep_view() + ts2, rest)),
                    });
                }
            },
        }
    }
    proof {
        assert(dec_tasks(v@.skip(j as int), 0) == Some(
            (Seq::<TaskView>::empty(), v@.skip(j as int)),
        ));
        assert(ts.deep_view() + Seq::<TaskView>::empty() =~= ts.deep_view());
    }
    Some((ts, j))
}

/// Reads one project record at `i`, as `dec_project` does.
fn dec_project_at(v: &Vec<char>, i: usize) -> (r: Option<(Project, usize)>)
    requires
        i <= v@.len(),
    ensures
        match r {
            Some(p) => p.1 <= v@.len() && dec_project(v@.skip(i as int)) == Some(
                (p.0@, v@.skip(p.1 as int)),
            ),
            None => dec_project(v@.skip(i as int)) is None,
        },
{
    let (namelen, i1) = match dec_number_at(v, i) {
        None => {
            return None;
        },
        Some(p) => p,
    };
    let i2 = match dec_char_at(v, i1, ' ') {
        None => {
            return None;
        },
        Some(j) => j,
    };
    if namelen > (v.len() - i2) as u64 {
        proof {
            assert(v@.skip(i2 as int).len() == v@.len() - i2);
            assert(dec_take(v@.skip(i2 as int), namelen as int) is None);
        }
        return None;
    }
    let nameend = i2 + (namelen as usize);
    let name = chars_substring(v, i2, nameend);
    proof {
        assert(v@.skip(i2 as int).take(namelen as int) =~= v@.subrange(i2 as int, nameend as int));
        assert(v@.skip(i2 as int).skip(namelen as int) =~= v@.skip(nameend as int));
    }
    let i3 = match dec_char_at(v, nameend, '\n') {
        None => {
            return None;
        },
        Some(j) => j,
    };
    let (count, i4) = match dec_number_at(v, i3) {
        None => {
            return None;
        },
        Some(p) => p,
    };
    let i5 = match dec_char_at(v, i4, '\n') {
        None => {
            return None;
        },
        Some(j) => j,
    };
    let (tasks, i6) = match dec_tasks_at(v, i5, count) {
        None => {
            return None;
        },
        Some(p) => p,
    };
    Some((Project { name, tasks }, i6))
}

/// Reads `n` project records at `i`, as `dec_projects` does.
fn dec_projects_at(v: &Vec<char>, i: usize, n: u64) -> (r: Option<(Vec<Project>, usize)>)
    requires
        i <= v@.len(),
    ensures
        match r {
            Some(p) => p.1 <= v@.len() && dec_projects(v@.skip(i as int), n as nat) == Some(
                (p.0.deep_view(), v@.skip(p.1 as int)),
            ),
            None => dec_projects(v@.skip(i as int), n as nat) is None,
        },
{
    let mut ps: Vec<Project> = Vec::new();
    let mut j: usize = i;
    let mut k: u64 = 0;
    proof {
        assert(ps.deep_view() =~= Seq::<ProjView>::empty());
    }
    while k < n
        invariant
            k <= n,
            j <= v@.len(),
            ({
                let tail = dec_projects(v@.skip(j as int), (n - k) as nat);
                dec_projects(v@.skip(i as int), n as nat) == match tail {
                    None => None::<(Seq<ProjView>, Seq<char>)>,
                    Some((ps2, rest)) => Some((ps.deep_view() + ps2, rest)),
                }
            }),
        decreases n - k,
    {
        let ghost prev = ps.deep_view();
        match dec_project_at(v, j) {
            None => {
                proof {
                    assert(dec_projects(v@.skip(j as int), (n - k) as nat) is None);
                }
                return None;
            },
            Some((p, j2)) => {
                let ghost pv = p@;
                ps.push(p);
                proof {
                    assert(ps.deep_view() =~= prev.push(pv));
                    let tail2 = dec_projects(v@.skip(j2 as int), (n - k - 1) as nat);
                    assert(dec_projects(v@.skip(j as int), (n - k) as nat) == match tail2 {
                        None => None::<(Seq<ProjView>, Seq<char>)>,
                        Some((ps2, rest)) => Some((seq![pv] + ps2, rest)),
                    });
                    if let Some((ps2, rest)) = tail2 {
                        assert(prev + (seq![pv] + ps2) =~= prev.push(pv) + ps2);
                    }
                }
                j = j2;
                k = k + 1;
                proof {
                    let tail = dec_projects(v@.skip(j as int), (n - k) as nat);
                    assert(dec_projects(v@.skip(i as int), n as nat) == match tail {
                        None => None::<(Seq<ProjView>, Seq<char>)>,
                        Some((ps2, rest)) => Some((ps.deep_view() + ps2, rest)),
                    });
                }
            },
        }
    }
    proof {
        assert(dec_projects(v@.skip(j as int), 0) == Some(
            (Seq::<ProjView>::empty(), v@.skip(j as int)),
        ));
        assert(ps.deep_view() + Seq::<ProjView>::empty() =~= ps.deep_view());
    }
    Some((ps, j))
}

/// A collection with each project's tasks put in sorted order.
pub open spec fn sorted_tasks_form(ps: Seq<ProjView>) -> Seq<ProjView> {
    Seq::new(ps.len(), |i: int| ProjView { name: ps[i].name, tasks: sort_tasks(ps[i].tasks) })
}

/// The sorted form of a collection: every project's tasks sorted by
/// the task order, and the projects sorted by the project order.
pub open spec fn normalize(ps: Seq<ProjView>) -> Seq<ProjView> {
    sort_projects(sorted_tasks_form(ps))
}

/// The sorted form of a collection is sorted at both levels: the
/// projects are ordered by the project order, and every project's
/// tasks are ordered by the task order.
pub proof fn lemma_normalize_sorted(ps: Seq<ProjView>)
    ensures
        ordered(normalize(ps), proj_le_fn()),
        forall|i: int|
            0 <= i < normalize(ps).len() ==> ordered(
                (#[trigger] normalize(ps)[i]).tasks,
                task_le_fn(),
            ),
{
    let mid = sorted_tasks_form(ps);
    lemma_sort_projects_sorted(mid);
    lemma_sort_ordered_elems(mid, proj_le_fn());
    assert forall|i: int| 0 <= i < normalize(ps).len() implies ordered(
        (#[trigger] normalize(ps)[i]).tasks,
        task_le_fn(),
    ) by {
        let j = choose|j: int| 0 <= j < mid.len() && mid[j] == normalize(ps)[i];
        lemma_sort_tasks_sorted(ps[j].tasks);
    }
}

/// Sorts projects stably by the project order.
fn sort_projects_vec(ps: Vec<Project>) -> (r: Vec<Project>)
    ensures
        r.deep_view() == sort_projects(ps.deep_view()),
{
    let ghost orig = ps.deep_view();
    let mut rest = ps;
    let mut out: Vec<Project> = Vec::new();
    proof {
        assert(orig.take(0) =~= Seq::<ProjView>::empty());
    }
    while rest.len() > 0
        invariant
            out@.len() + rest@.len() == orig.len(),
            out.deep_view() == sort_projects(orig.take(out@.len() as int)),
            forall|x: int|
                0 <= x < rest@.len() ==> (#[trigger] rest@[x])@ == orig[out@.len() + x],
        decreases rest@.len(),
    {
        let ghost k = out@.len() as int;
        let p = rest.remove(0);
        proof {
            assert(p@ == orig[k]);
        }
        let j = project_insert_position(&out, &p);
        proof {
            lemma_insert_ordered_at(out.deep_view(), p@, proj_le_fn(), j as int);
        }
        let ghost sorted_prev = out.deep_view();
        out.insert(j, p);
        proof {
            assert(out.deep_view() =~= sorted_prev.subrange(0, j as int) + seq![orig[k]]
                + sorted_prev.subrange(j as int, sorted_prev.len() as int));
            assert(orig.take(k + 1).drop_last() =~= orig.take(k));
            assert(orig.take(k + 1).last() == orig[k]);
            assert(out.deep_view() =~= sort_projects(orig.take(k + 1)));
        }
    }
    proof {
        assert(orig.take(orig.len() as int) =~= orig);
    }
    out
}

/// Reads a collection from its stored text form and returns its sorted
/// form: text that does not decode is a storage-format failure, and
/// leaves nothing half-read.
pub fn load_tasks(s: &str) -> (r: Result<Vec<Project>, RustaskError>)
    ensures
        ({
            let d = dec_collection(s@);
            match r {
                Ok(ps) => d is Some && ps.deep_view() == normalize(d->0),
                Err(e) => e is SerializationError && d is None,
            }
        }),
{
    let v = str_to_chars(s);
    proof {
        assert(v@.skip(0) =~= s@);
    }
    let (n, i1) = match dec_number_at(&v, 0) {
        None => {
            return Err(RustaskError::SerializationError);
        },
        Some(p) => p,
    };
    let i2 = match dec_char_at(&v, i1, '\n') {
        None => {
            return Err(RustaskError::SerializationError);
        },
        Some(j) => j,
    };
    let (ps, j) = match dec_projects_at(&v, i2, n) {
        None => {
            return Err(RustaskError::SerializationError);
        },
        Some(p) => p,
    };
    if j != v.len() {
        proof {
            assert(v@.skip(j as int).len() > 0);
        }
        return Err(RustaskError::SerializationError);
    }
    proof {
        assert(v@.skip(j as int).len() == 0);
        assert(dec_collection(s@) == Some(ps.deep_view()));
    }
    let ghost decoded = ps.deep_view();
    let mut rest = ps;
    let mut mid: Vec<Project> = Vec::new();
    while rest.len() > 0
        invariant
            mid@.len() + rest@.len() == decoded.len(),
            forall|x: int|
                0 <= x < rest@.len() ==> (#[trigger] rest@[x])@ == decoded[mid@.len() + x],
            forall|t: int|
                0 <= t < mid@.len() ==> (#[trigger] mid@[t])@ == (ProjView {
                    name: decoded[t].name,
                    tasks: sort_tasks(decoded[t].tasks),
                }),
        decreases rest@.len(),
    {
        let ghost k = mid@.len() as int;
        let p = rest.remove(0);
        proof {
            assert(p@ == decoded[k]);
        }
        let mut tasks = p.tasks;
        crate::project::sort_tasks_in_place(&mut tasks);
        let p2 = Project { name: p.name, tasks };
        mid.push(p2);
    }
    proof {
        assert forall|t: int| 0 <= t < decoded.len() implies mid.deep_view()[t]
            == sorted_tasks_form(decoded)[t] by {
            assert(mid@[t]@ == (ProjView {
                name: decoded[t].name,
                tasks: sort_tasks(decoded[t].tasks),
            }));
        }
        assert(mid.deep_view() =~= sorted_tasks_form(decoded));
    }
    Ok(sort_projects_vec(mid))
}

} // verus!
