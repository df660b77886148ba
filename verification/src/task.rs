//! The task data model: priorities, deadlines, tasks, and the
//! deadline-aware selection predicate used by the selective listing.

use vstd::prelude::*;

use crate::text::{chars_le, chars_lt, digit_val, is_digit, lemma_chars_lt_connected,
    lemma_chars_lt_irreflexive, lemma_chars_lt_transitive, str_lt};

verus! {

/// Urgency class of a task, ranked from most to least pressing.
#[derive(Clone, Copy, Debug, PartialEq, Eq, Structural)]
pub enum Priority {
    Urgent,
    High,
    Normal,
    Low,
    Note,
}

/// Rank of a priority: lower ranks sort first and are more pressing.
pub open spec fn rank(p: Priority) -> int {
    match p {
        Priority::Urgent => 0,
        Priority::High => 1,
        Priority::Normal => 2,
        Priority::Low => 3,
        Priority::Note => 4,
    }
}

/// Rank used in comparisons and scoring: an absent priority counts
/// exactly as `Normal`, not as a rank of its own.
pub open spec fn eff_rank(p: Option<Priority>) -> int {
    match p {
        Some(q) => rank(q),
        None => rank(Priority::Normal),
    }
}

impl Priority {
    /// Executable rank, equal to the spec-level `rank`.
    pub fn rank_value(&self) -> (r: u8)
        ensures
            r as int == rank(*self),
    {
        match self {
            Priority::Urgent => 0,
            Priority::High => 1,
            Priority::Normal => 2,
            Priority::Low => 3,
            Priority::Note => 4,
        }
    }
}

/// Executable effective rank, equal to the spec-level `eff_rank`.
pub fn effective_rank(p: &Option<Priority>) -> (r: u8)
    ensures
        r as int == eff_rank(*p),
{
    match p {
        Some(q) => q.rank_value(),
        None => 2,
    }
}

/// A point in time, held as whole seconds since the Unix epoch.
#[derive(Clone, Copy, Debug, PartialEq, Eq, Structural)]
pub struct Deadline {
    pub secs: i64,
}

/// Mathematical value of a task: what the contracts speak about.
pub struct TaskView {
    pub description: Seq<char>,
    pub priority: Option<Priority>,
    pub deadline: Option<int>,
}

/// A single actionable item: a description, an optional priority and an
/// optional deadline.
#[derive(Debug)]
pub struct Task {
    pub description: String,
    pub priority: Option<Priority>,
    pub deadline: Option<Deadline>,
}

impl View for Task {
    type V = TaskView;

    open spec fn view(&self) -> TaskView {
        TaskView {
            description: self.description@,
            priority: self.priority,
            deadline: match self.deadline {
                Some(d) => Some(d.secs as int),
                None => None,
            },
        }
    }
}

impl DeepView for Task {
    type V = TaskView;

    open spec fn deep_view(&self) -> TaskView {
        self.view()
    }
}

impl Clone for Task {
    fn clone(&self) -> (r: Task)
        ensures
            r@ == self@,
    {
        Task {
            description: self.description.clone(),
            priority: self.priority,
            deadline: self.deadline,
        }
    }
}

impl PartialEq for Task {
    fn eq(&self, other: &Task) -> (r: bool) {
        let pri_eq = match (self.priority, other.priority) {
            (None, None) => true,
            (Some(a), Some(b)) => a == b,
            _ => false,
        };
        let dl_eq = match (self.deadline, other.deadline) {
            (None, None) => true,
            (Some(a), Some(b)) => a.secs == b.secs,
            _ => false,
        };
        pri_eq && dl_eq && self.description == other.description
    }
}

impl vstd::std_specs::cmp::PartialEqSpecImpl for Task {
    open spec fn obeys_eq_spec() -> bool {
        true
    }

    open spec fn eq_spec(&self, other: &Task) -> bool {
        self@ == other@
    }
}

/// Sort order of tasks: by effective priority rank first, then by
/// description, lexicographically ascending. Deadlines never affect it.
pub open spec fn task_le(a: TaskView, b: TaskView) -> bool {
    eff_rank(a.priority) < eff_rank(b.priority) || (eff_rank(a.priority) == eff_rank(b.priority)
        && chars_le(a.description, b.description))
}

impl Task {
    /// Executable task order, equal to the spec-level `task_le`.
    pub fn le(&self, other: &Task) -> (r: bool)
        ensures
            r == task_le(self@, other@),
    {
        let ra = effective_rank(&self.priority);
        let rb = effective_rank(&other.priority);
        if ra < rb {
            true
        } else if ra > rb {
            false
        } else {
            !str_lt(other.description.as_str(), self.description.as_str())
        }
    }
}

/// The task order is total: of two tasks with equal effective priority
/// the one with the lexicographically smaller description comes first,
/// and otherwise the fixed priority ranking decides; every pair of
/// tasks is ordered one way or the other.
pub proof fn lemma_task_order(a: TaskView, b: TaskView)
    ensures
        eff_rank(a.priority) == eff_rank(b.priority) ==> (task_le(a, b) <==> chars_le(
            a.description,
            b.description,
        )),
        eff_rank(a.priority) != eff_rank(b.priority) ==> (task_le(a, b) <==> eff_rank(a.priority)
            < eff_rank(b.priority)),
        task_le(a, b) || task_le(b, a),
{
    if !task_le(a, b) && !task_le(b, a) {
        assert(chars_lt(a.description, b.description) && chars_lt(b.description, a.description));
        lemma_chars_lt_transitive(a.description, b.description, a.description);
        lemma_chars_lt_irreflexive(a.description);
    }
}

/// The task order is transitive.
pub proof fn lemma_task_le_transitive(a: TaskView, b: TaskView, c: TaskView)
    requires
        task_le(a, b),
        task_le(b, c),
    ensures
        task_le(a, c),
{
    if eff_rank(a.priority) == eff_rank(b.priority) && eff_rank(b.priority) == eff_rank(c.priority)
        && chars_lt(c.description, a.description) {
        if chars_lt(c.description, b.description) {
            assert(!task_le(b, c));
        } else if chars_lt(b.description, a.description) {
            assert(!task_le(a, b));
        } else if chars_lt(b.description, c.description) {
            lemma_chars_lt_transitive(b.description, c.description, a.description);
        } else {
            lemma_chars_lt_connected(b.description, c.description);
        }
    }
}

/// Minutes in one week: the span of the urgency ramp, and the scale in
/// which urgency and selection probabilities are expressed.
pub open spec fn week_scale() -> int {
    10080
}

/// Urgency of a deadline at a given moment, as a numerator over the
/// minutes of one week: `week_scale()` stands for probability one.
///
/// No deadline scores zero. A deadline due now or overdue scores full.
/// One a week or more away scores zero. In between the score ramps
/// linearly from just under full (imminent) down to zero (a week out),
/// by whole minutes.
pub open spec fn urgency_scaled(deadline: Option<int>, now: int) -> int {
    match deadline {
        None => 0,
        Some(d) => {
            let diff = d - now;
            if diff <= 0 {
                week_scale()
            } else {
                let mins = diff / 60;
                if mins >= week_scale() {
                    0
                } else {
                    week_scale() - mins
                }
            }
        },
    }
}

impl Task {
    /// Deadline-proximity score at the moment `now`, as a numerator
    /// over `week_scale()`.
    pub fn urgency(&self, now: &Deadline) -> (u: u64)
        ensures
            u as int == urgency_scaled(self@.deadline, now.secs as int),
            u <= 10080,
    {
        match &self.deadline {
            None => 0,
            Some(d) => {
                if d.secs <= now.secs {
                    10080
                } else {
                    let diff: i128 = (d.secs as i128) - (now.secs as i128);
                    let mins: i128 = diff / 60;
                    if mins >= 10080 {
                        0
                    } else {
                        10080 - (mins as u64)
                    }
                }
            },
        }
    }
}

/// Base selection weight of an effective priority, over `week_scale()`:
/// certainty for the two top ranks, then one third, one fifth and one
/// eighth of the scale.
pub open spec fn choose_base(p: Option<Priority>) -> int {
    let r = eff_rank(p);
    if r <= 1 {
        week_scale()
    } else if r == 2 {
        3360
    } else if r == 3 {
        2016
    } else {
        1260
    }
}

/// Selection threshold of a task: base weight plus urgency, capped at
/// certainty. A uniform draw below it selects the task.
pub open spec fn select_threshold(p: Option<Priority>, u: int) -> int {
    if choose_base(p) + u >= week_scale() {
        week_scale()
    } else {
        choose_base(p) + u
    }
}

/// Whether a task is selected at `now` by the uniform draw `draw`,
/// taken from `[0, week_scale())`.
pub open spec fn selected(t: TaskView, now: int, draw: int) -> bool {
    draw < select_threshold(t.priority, urgency_scaled(t.deadline, now))
}

impl Task {
    /// The selection predicate with the moment and the draw handed in:
    /// deterministic, and exactly the spec-level `selected`.
    pub fn choose_with(&self, now: &Deadline, draw: u64) -> (r: bool)
        ensures
            r == selected(self@, now.secs as int, draw as int),
    {
        let u = self.urgency(now);
        let r = effective_rank(&self.priority);
        let base: u64 = if r <= 1 {
            10080
        } else if r == 2 {
            3360
        } else if r == 3 {
            2016
        } else {
            1260
        };
        let threshold: u64 = if base + u >= 10080 {
            10080
        } else {
            base + u
        };
        draw < threshold
    }

    /// Whether the task shows up in the selective listing right now:
    /// one independent weighted coin flip per call, so successive calls
    /// may differ. Urgent and high-priority tasks are always shown.
    pub fn select(&self) -> (r: bool)
        ensures
            eff_rank(self@.priority) <= 1 ==> r,
    {
        let now = now_deadline();
        let draw = random_draw();
        self.choose_with(&now, draw)
    }
}

/// Step-by-step constructor for a `Task`: description first, then
/// optionally a priority and a deadline.
pub struct TaskBuilder {
    description: String,
    priority: Option<Priority>,
    deadline: Option<Deadline>,
}

impl View for TaskBuilder {
    type V = TaskView;

    closed spec fn view(&self) -> TaskView {
        TaskView {
            description: self.description@,
            priority: self.priority,
            deadline: match self.deadline {
                Some(d) => Some(d.secs as int),
                None => None,
            },
        }
    }
}

impl TaskBuilder {
    pub fn new(description: String) -> (b: TaskBuilder)
        ensures
            b@ == (TaskView { description: description@, priority: None, deadline: None }),
    {
        TaskBuilder { description, priority: None, deadline: None }
    }

    pub fn priority(self, priority: Priority) -> (b: TaskBuilder)
        ensures
            b@ == (TaskView { priority: Some(priority), ..self@ }),
    {
        TaskBuilder { priority: Some(priority), ..self }
    }

    pub fn deadline(self, deadline: Deadline) -> (b: TaskBuilder)
        ensures
            b@ == (TaskView { deadline: Some(deadline.secs as int), ..self@ }),
    {
        TaskBuilder { deadline: Some(deadline), ..self }
    }

    pub fn build(self) -> (t: Task)
        ensures
            t@ == self@,
    {
        Task { description: self.description, priority: self.priority, deadline: self.deadline }
    }
}

/// The urgency score is bounded by the scale; it never rises as the
/// time to the deadline grows; it is full at or past the deadline and
/// zero from one week out; and it moves by at most one step per minute
/// of change in between, so the ramp has no jump.
pub proof fn lemma_urgency(d1: int, d2: int, now: int)
    requires
        d1 <= d2,
    ensures
        0 <= urgency_scaled(Some(d1), now) <= 10080,
        urgency_scaled(Some(d2), now) <= urgency_scaled(Some(d1), now),
        d1 - now <= 0 ==> urgency_scaled(Some(d1), now) == 10080,
        d2 - now >= 604800 ==> urgency_scaled(Some(d2), now) == 0,
        d2 - d1 <= 60 ==> urgency_scaled(Some(d1), now) - urgency_scaled(Some(d2), now) <= 1,
{
    let diff1 = d1 - now;
    let diff2 = d2 - now;
    broadcast use vstd::arithmetic::div_mod::lemma_div_is_ordered;
    broadcast use vstd::arithmetic::div_mod::lemma_basic_div;

    if diff1 > 0 {
        assert(0int / 60 == 0);
        assert(diff1 / 60 >= 0);
    }
    if diff2 > 0 {
        assert(0int / 60 == 0);
        assert(diff2 / 60 >= 0);
        if diff2 >= 604800 {
            vstd::arithmetic::div_mod::lemma_fundamental_div_mod_converse(604800, 60, 10080, 0);
            assert(diff2 / 60 >= 10080);
        }
    }
    if 0 < diff1 {
        assert(diff1 / 60 <= diff2 / 60);
        if diff2 - diff1 <= 60 {
            vstd::arithmetic::div_mod::lemma_div_plus_one(diff1, 60);
            assert(diff2 / 60 <= (60 + diff1) / 60);
            assert(diff2 / 60 <= diff1 / 60 + 1);
        }
    }
    if diff1 <= 0 && 0 < diff2 && diff2 <= 60 {
        if diff2 < 60 {
            assert(diff2 / 60 == 0);
        } else {
            vstd::arithmetic::div_mod::lemma_fundamental_div_mod_converse(60, 60, 1, 0);
        }
    }
}

/// Laws of the selection predicate: a task of one of the two top
/// priority ranks is selected whatever the draw; an "always select"
/// source, a draw of zero, selects every task; and in general a task
/// is selected exactly when the draw falls below its threshold of base
/// weight plus urgency.
pub proof fn lemma_selection(t: TaskView, now: int, draw: int)
    requires
        0 <= draw < 10080,
    ensures
        selected(t, now, draw) <==> draw < select_threshold(
            t.priority,
            urgency_scaled(t.deadline, now),
        ),
        eff_rank(t.priority) <= 1 ==> selected(t, now, draw),
        draw == 0 ==> selected(t, now, draw),
{
    match t.deadline {
        None => {},
        Some(d) => {
            lemma_urgency(d, d, now);
        },
    }
}

/// Mathematical value of a partial update.
pub struct TaskPatchView {
    pub description: Option<Seq<char>>,
    pub priority: Option<Priority>,
    pub deadline: Option<int>,
}

/// A partial update of a task: only the fields that are present
/// replace the current values; absent fields leave them untouched.
/// A patch can set a priority or a deadline, never clear one.
#[derive(Debug)]
pub struct TaskPatch {
    pub description: Option<String>,
    pub priority: Option<Priority>,
    pub deadline: Option<Deadline>,
}

impl View for TaskPatch {
    type V = TaskPatchView;

    open spec fn view(&self) -> TaskPatchView {
        TaskPatchView {
            description: match self.description {
                Some(ref d) => Some(d@),
                None => None,
            },
            priority: self.priority,
            deadline: match self.deadline {
                Some(d) => Some(d.secs as int),
                None => None,
            },
        }
    }
}

impl TaskPatch {
    /// The patch that changes nothing.
    pub fn empty() -> (p: TaskPatch)
        ensures
            p@.description is None,
            p@.priority is None,
            p@.deadline is None,
    {
        TaskPatch { description: None, priority: None, deadline: None }
    }
}

/// The task a patch turns a task into: present fields replace the
/// current values, absent fields keep them.
pub open spec fn apply_patch(t: TaskView, p: TaskPatchView) -> TaskView {
    TaskView {
        description: match p.description {
            Some(d) => d,
            None => t.description,
        },
        priority: match p.priority {
            Some(x) => Some(x),
            None => t.priority,
        },
        deadline: match p.deadline {
            Some(x) => Some(x),
            None => t.deadline,
        },
    }
}

/// Laws of patching: the empty patch leaves a task exactly as it was,
/// and a patch that only sets a priority touches neither the
/// description nor the deadline.
pub proof fn lemma_patch(t: TaskView, p: TaskPatchView)
    ensures
        p.description is None && p.priority is None && p.deadline is None ==> apply_patch(t, p)
            == t,
        p.description is None && p.deadline is None ==> apply_patch(t, p).description
            == t.description && apply_patch(t, p).deadline == t.deadline,
{
}

/// Failure to read a priority token.
#[derive(Debug, PartialEq, Eq, Structural)]
pub struct ParsePriorityError {}

/// Code point of a character with ASCII capitals folded to lower case.
pub open spec fn lower_val(c: char) -> int {
    if 65 <= (c as int) <= 90 {
        (c as int) + 32
    } else {
        c as int
    }
}

/// Character-wise ASCII-case-insensitive equality.
pub open spec fn eq_ignore_case(a: Seq<char>, b: Seq<char>) -> bool {
    a.len() == b.len() && forall|i: int| 0 <= i < a.len() ==> lower_val(a[i]) == lower_val(b[i])
}

/// The priority named by a token, if any: one of `urgent`, `high`,
/// `normal`, `low`, `note`, in any mix of ASCII case.
pub open spec fn priority_of_token(s: Seq<char>) -> Option<Priority> {
    if eq_ignore_case(s, "urgent"@) {
        Some(Priority::Urgent)
    } else if eq_ignore_case(s, "high"@) {
        Some(Priority::High)
    } else if eq_ignore_case(s, "normal"@) {
        Some(Priority::Normal)
    } else if eq_ignore_case(s, "low"@) {
        Some(Priority::Low)
    } else if eq_ignore_case(s, "note"@) {
        Some(Priority::Note)
    } else {
        None
    }
}

/// ASCII-case-insensitive comparison of two string slices.
fn str_eq_ignore_case(a: &str, b: &str) -> (r: bool)
    ensures
        r == eq_ignore_case(a@, b@),
{
    let alen = a.unicode_len();
    let blen = b.unicode_len();
    if alen != blen {
        return false;
    }
    let mut i: usize = 0;
    while i < alen
        invariant
            alen == a@.len(),
            blen == b@.len(),
            alen == blen,
            i <= alen,
            forall|j: int| 0 <= j < i ==> lower_val(a@[j]) == lower_val(b@[j]),
        decreases alen - i,
    {
        let ca = a.get_char(i) as u32;
        let cb = b.get_char(i) as u32;
        let la = if 65 <= ca && ca <= 90 {
            ca + 32
        } else {
            ca
        };
        let lb = if 65 <= cb && cb <= 90 {
            cb + 32
        } else {
            cb
        };
        if la != lb {
            return false;
        }
        i = i + 1;
    }
    true
}

impl Priority {
    /// Reads a case-insensitive priority token; any token outside the
    /// five named levels is an invalid priority.
    pub fn parse(s: &str) -> (r: Result<Priority, ParsePriorityError>)
        ensures
            match r {
                Ok(p) => priority_of_token(s@) == Some(p),
                Err(_) => priority_of_token(s@) is None,
            },
    {
        if str_eq_ignore_case(s, "urgent") {
            Ok(Priority::Urgent)
        } else if str_eq_ignore_case(s, "high") {
            Ok(Priority::High)
        } else if str_eq_ignore_case(s, "normal") {
            Ok(Priority::Normal)
        } else if str_eq_ignore_case(s, "low") {
            Ok(Priority::Low)
        } else if str_eq_ignore_case(s, "note") {
            Ok(Priority::Note)
        } else {
            Err(ParsePriorityError {})
        }
    }
}

/// Failure to read a deadline string.
#[derive(Debug)]
pub enum DeadlineParseError {
    /// The string does not follow the accepted calendar format.
    ParseError { string: String },
    /// The moment does not exist in the local timezone.
    TimezoneError,
}

pub open spec fn is_leap_year(y: int) -> bool {
    (y % 4 == 0 && y % 100 != 0) || y % 400 == 0
}

pub open spec fn days_in_month(y: int, m: int) -> int {
    if m == 2 {
        if is_leap_year(y) {
            29
        } else {
            28
        }
    } else if m == 4 || m == 6 || m == 9 || m == 11 {
        30
    } else {
        31
    }
}

/// A real proleptic-Gregorian calendar date.
pub open spec fn valid_date(y: int, m: int, d: int) -> bool {
    1 <= m <= 12 && 1 <= d <= days_in_month(y, m)
}

/// Shape of the date part: four year digits, two month digits and two
/// day digits, separated by dashes.
pub open spec fn date_part_ok(s: Seq<char>) -> bool {
    is_digit(s[0]) && is_digit(s[1]) && is_digit(s[2]) && is_digit(s[3]) && s[4] == '-' && is_digit(
        s[5],
    ) && is_digit(s[6]) && s[7] == '-' && is_digit(s[8]) && is_digit(s[9])
}

/// Shape of the optional time part: a space, two hour digits, a colon
/// and two minute digits.
pub open spec fn time_part_ok(s: Seq<char>) -> bool {
    s[10] == ' ' && is_digit(s[11]) && is_digit(s[12]) && s[13] == ':' && is_digit(s[14])
        && is_digit(s[15])
}

pub open spec fn spec_year(s: Seq<char>) -> int {
    digit_val(s[0]) * 1000 + digit_val(s[1]) * 100 + digit_val(s[2]) * 10 + digit_val(s[3])
}

pub open spec fn spec_month(s: Seq<char>) -> int {
    digit_val(s[5]) * 10 + digit_val(s[6])
}

pub open spec fn spec_day(s: Seq<char>) -> int {
    digit_val(s[8]) * 10 + digit_val(s[9])
}

pub open spec fn spec_hour(s: Seq<char>) -> int {
    if s.len() == 10 {
        0
    } else {
        digit_val(s[11]) * 10 + digit_val(s[12])
    }
}

pub open spec fn spec_minute(s: Seq<char>) -> int {
    if s.len() == 10 {
        0
    } else {
        digit_val(s[14]) * 10 + digit_val(s[15])
    }
}

/// A deadline string: a date `YYYY-MM-DD`, optionally followed by a
/// time of day ` HH:MM`, naming a real date and time.
pub open spec fn well_formed_deadline(s: Seq<char>) -> bool {
    (s.len() == 10 || (s.len() == 16 && time_part_ok(s))) && date_part_ok(s) && valid_date(
        spec_year(s),
        spec_month(s),
        spec_day(s),
    ) && spec_hour(s) <= 23 && spec_minute(s) <= 59
}

/// Value of the digit character at `i`, or `None` if it is no digit.
fn digit_at(s: &str, i: usize) -> (r: Option<u32>)
    requires
        i < s@.len(),
    ensures
        match r {
            Some(v) => is_digit(s@[i as int]) && v as int == digit_val(s@[i as int]) && v < 10,
            None => !is_digit(s@[i as int]),
        },
{
    let v = s.get_char(i) as u32;
    if 48 <= v && v <= 57 {
        Some(v - 48)
    } else {
        None
    }
}

fn days_in_month_of(y: u32, m: u32) -> (r: u32)
    requires
        1 <= m <= 12,
    ensures
        r as int == days_in_month(y as int, m as int),
{
    if m == 2 {
        if (y % 4 == 0 && y % 100 != 0) || y % 400 == 0 {
            29
        } else {
            28
        }
    } else if m == 4 || m == 6 || m == 9 || m == 11 {
        30
    } else {
        31
    }
}

/// Days from the Unix epoch to a proleptic-Gregorian calendar date:
/// the standard civil day count, counting 1970-01-01 as day zero.
pub open spec fn days_from_civil(y: int, m: int, d: int) -> int {
    let yy = if m <= 2 {
        y - 1
    } else {
        y
    };
    let era = yy / 400;
    let yoe = yy % 400;
    let mp = if m > 2 {
        m - 3
    } else {
        m + 9
    };
    let doy = (153 * mp + 2) / 5 + d - 1;
    let doe = yoe * 365 + yoe / 4 - yoe / 100 + doy;
    era * 146097 + doe - 719468
}

/// Seconds from the Unix epoch to a civil moment read as UTC.
pub open spec fn civil_secs(y: int, m: int, d: int, h: int, mi: int) -> int {
    days_from_civil(y, m, d) * 86400 + h * 3600 + mi * 60
}

/// Reads a deadline from its text form and resolves it in local time.
///
/// A string outside the accepted format, or naming no real calendar
/// date or time of day, fails to parse; a real moment that the local
/// timezone skips over cannot be assigned a timezone. A parsed
/// deadline sits within a day of the civil UTC reading of its
/// components — the local offset — so deadlines more than two civil
/// days apart keep their calendar order.
pub fn parse_deadline(s: &str) -> (r: Result<Deadline, DeadlineParseError>)
    ensures
        (r matches Err(e) && e is ParseError) <==> !well_formed_deadline(s@),
        match r {
            Err(DeadlineParseError::ParseError { string }) => string@ == s@,
            _ => true,
        },
        match r {
            Ok(dl) => civil_secs(
                spec_year(s@),
                spec_month(s@),
                spec_day(s@),
                spec_hour(s@),
                spec_minute(s@),
            ) - 86400 < dl.secs < civil_secs(
                spec_year(s@),
                spec_month(s@),
                spec_day(s@),
                spec_hour(s@),
                spec_minute(s@),
            ) + 86400,
            _ => true,
        },
{
    let n = s.unicode_len();
    if n != 10 && n != 16 {
        return Err(DeadlineParseError::ParseError { string: s.to_owned() });
    }
    let d0 = digit_at(s, 0);
    let d1 = digit_at(s, 1);
    let d2 = digit_at(s, 2);
    let d3 = digit_at(s, 3);
    let d5 = digit_at(s, 5);
    let d6 = digit_at(s, 6);
    let d8 = digit_at(s, 8);
    let d9 = digit_at(s, 9);
    let shape = d0.is_some() && d1.is_some() && d2.is_some() && d3.is_some() && s.get_char(4)
        == '-' && d5.is_some() && d6.is_some() && s.get_char(7) == '-' && d8.is_some()
        && d9.is_some();
    if !shape {
        return Err(DeadlineParseError::ParseError { string: s.to_owned() });
    }
    let year: u32 = d0.unwrap() * 1000 + d1.unwrap() * 100 + d2.unwrap() * 10 + d3.unwrap();
    let month: u32 = d5.unwrap() * 10 + d6.unwrap();
    let day: u32 = d8.unwrap() * 10 + d9.unwrap();
    let mut hour: u32 = 0;
    let mut minute: u32 = 0;
    if n == 16 {
        let d11 = digit_at(s, 11);
        let d12 = digit_at(s, 12);
        let d14 = digit_at(s, 14);
        let d15 = digit_at(s, 15);
        let tshape = s.get_char(10) == ' ' && d11.is_some() && d12.is_some() && s.get_char(13)
            == ':' && d14.is_some() && d15.is_some();
        if !tshape {
            return Err(DeadlineParseError::ParseError { string: s.to_owned() });
        }
        hour = d11.unwrap() * 10 + d12.unwrap();
        minute = d14.unwrap() * 10 + d15.unwrap();
    }
    if month < 1 || month > 12 || day < 1 || day > days_in_month_of(year, month) || hour > 23
        || minute > 59 {
        return Err(DeadlineParseError::ParseError { string: s.to_owned() });
    }
    match local_timestamp(year as i32, month, day, hour, minute) {
        Some(secs) => Ok(Deadline { secs }),
        None => Err(DeadlineParseError::TimezoneError),
    }
}

/// A count with its unit, an `s` appended unless the count is one.
pub open spec fn plural_unit(n: int, unit: Seq<char>) -> Seq<char> {
    if n == 1 {
        crate::text::decimal(n as nat) + unit
    } else {
        crate::text::decimal(n as nat) + unit + "s"@
    }
}

/// The relative-time phrase for a signed distance in seconds: an
/// `overdue by` or `in` prefix, then the distance in its largest whole
/// unit — weeks, days, hours, or minutes when more than fifteen — and
/// `moments` when closer than that.
pub open spec fn spec_display_diff(diff: int) -> Seq<char> {
    let abs = if diff < 0 {
        -diff
    } else {
        diff
    };
    let prefix = if diff < 0 {
        "overdue by "@
    } else {
        "in "@
    };
    let body = if abs / 604800 > 0 {
        plural_unit(abs / 604800, " week"@)
    } else if abs / 86400 > 0 {
        plural_unit(abs / 86400, " day"@)
    } else if abs / 3600 > 0 {
        plural_unit(abs / 3600, " hour"@)
    } else if abs / 60 > 15 {
        plural_unit(abs / 60, " minute"@)
    } else {
        "moments"@
    };
    prefix + body
}

/// The header line of a named task group: the name, a colon, and the
/// pluralised task count.
pub(crate) fn header_line(name: &str, n: usize) -> (r: String)
    ensures
        r@ == name@ + ": "@ + plural_unit(n as int, " task"@),
{
    let mut out: Vec<char> = Vec::new();
    crate::text::push_str_chars(&mut out, name);
    crate::text::push_str_chars(&mut out, ": ");
    crate::text::push_decimal(n as u64, &mut out);
    crate::text::push_str_chars(&mut out, " task");
    if n != 1 {
        crate::text::push_str_chars(&mut out, "s");
    }
    proof {
        assert(out@ =~= name@ + ": "@ + plural_unit(n as int, " task"@));
    }
    crate::text::chars_to_string(out)
}

/// Renders the distance between two moments for a reader: how long
/// until a deadline, or by how much it was missed.
pub fn display_diff(diff_secs: i64) -> (r: String)
    ensures
        r@ == spec_display_diff(diff_secs as int),
{
    let neg = diff_secs < 0;
    let abs: u64 = if neg {
        ((-(diff_secs + 1)) as u64) + 1
    } else {
        diff_secs as u64
    };
    proof {
        assert(abs as int == if diff_secs < 0 {
            -(diff_secs as int)
        } else {
            diff_secs as int
        });
    }
    let mut out: Vec<char> = Vec::new();
    if neg {
        crate::text::push_str_chars(&mut out, "overdue by ");
    } else {
        crate::text::push_str_chars(&mut out, "in ");
    }
    let weeks = abs / 604800;
    let days = abs / 86400;
    let hours = abs / 3600;
    let minutes = abs / 60;
    if weeks > 0 {
        crate::text::push_decimal(weeks, &mut out);
        crate::text::push_str_chars(&mut out, " week");
        if weeks != 1 {
            crate::text::push_str_chars(&mut out, "s");
        }
    } else if days > 0 {
        crate::text::push_decimal(days, &mut out);
        crate::text::push_str_chars(&mut out, " day");
        if days != 1 {
            crate::text::push_str_chars(&mut out, "s");
        }
    } else if hours > 0 {
        crate::text::push_decimal(hours, &mut out);
        crate::text::push_str_chars(&mut out, " hour");
        if hours != 1 {
            crate::text::push_str_chars(&mut out, "s");
        }
    } else if minutes > 15 {
        crate::text::push_decimal(minutes, &mut out);
        crate::text::push_str_chars(&mut out, " minute");
        if minutes != 1 {
            crate::text::push_str_chars(&mut out, "s");
        }
    } else {
        crate::text::push_str_chars(&mut out, "moments");
    }
    proof {
        assert(out@ =~= spec_display_diff(diff_secs as int));
    }
    crate::text::chars_to_string(out)
}

/// Relies on chrono's `TimeZone::with_ymd_and_hms` on `Local`,
/// `MappedLocalTime::earliest` and `DateTime::timestamp`: resolves a
/// local calendar date and time of day to whole seconds since the Unix
/// epoch. Component values that name no real date or time map to
/// `MappedLocalTime::None`, and a moment that the local timezone skips
/// over has no earliest mapping; either way the result is `None`.
///
/// `timestamp` counts non-leap seconds since 1970-01-01 00:00:00 UTC,
/// and a `Local` offset is a `FixedOffset`, strictly less than one day
/// either way; so a resolved moment sits within a day of the civil UTC
/// reading of its components.
#[verifier::external_body]
fn local_timestamp(year: i32, month: u32, day: u32, hour: u32, minute: u32) -> (r: Option<i64>)
    ensures
        match r {
            Some(secs) => civil_secs(
                year as int,
                month as int,
                day as int,
                hour as int,
                minute as int,
            ) - 86400 < secs < civil_secs(
                year as int,
                month as int,
                day as int,
                hour as int,
                minute as int,
            ) + 86400,
            None => true,
        },
{
    chrono::TimeZone::with_ymd_and_hms(&chrono::Local, year, month, day, hour, minute, 0)
        .earliest()
        .map(|dt| dt.timestamp())
}

/// Relies on chrono's `Local::now` and `DateTime::timestamp`: the
/// current local moment, as whole seconds since the Unix epoch.
#[verifier::external_body]
pub fn now_deadline() -> Deadline {
    Deadline { secs: chrono::Local::now().timestamp() }
}

/// Relies on rand's `thread_rng` and `Rng::gen_range`: a uniform draw
/// from a non-empty range lies in that range.
#[verifier::external_body]
fn random_draw() -> (r: u64)
    ensures
        r < 10080,
{
    rand::Rng::gen_range(&mut rand::thread_rng(), 0u64..10080u64)
}

} // verus!
