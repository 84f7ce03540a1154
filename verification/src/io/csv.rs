//! Reading tasks and workers from the lines of a comma-separated table, and
//! laying out the assignments as lines of one.
//!
//! The table is laid out as follows; the first column of the three task
//! lines is ignored.
//!
//! ```text
//!   <ignored>   |   Task Name 1   |   Task Name 2   | ...
//!   <ignored>   |   Task 1 Min    |   Task 2 Min    | ...
//!   <ignored>   |   Task 1 Max    |   Task 2 Max    | ...
//! Worker 1 Name | Task 1 Cost     | Task 2 Cost     | ...
//! Worker 2 Name | Task 1 Cost     | Task 2 Cost     | ...
//! ```
//!
//! Minima and maxima are whole numbers, and a maximum of 0 means 0. A cost
//! that is left blank means that the worker does not accept the task.
use crate::io::text::{
    count_of, fields_of, lemma_reads_one_way, parse_count, reads_as, split_fields, texts, trim_text,
    trimmed, NumberError,
};
use crate::network::model::{InputError, NetworkView};
use crate::network::Network;
use crate::network::report::names_view;
use vstd::prelude::*;
use vstd::string::StringExecFns;

verus! {

/// Why a table could not be read.
#[derive(Debug)]
pub enum ReadError {
    /// The table has no line at all.
    EmptyInput,
    /// The table has no line of minima.
    NoMinima,
    /// The table has no line of maxima.
    NoMaxima,
    /// The lines of names, minima and maxima differ in their number of
    /// fields.
    MismatchedTaskData,
    /// A minimum is not a whole number.
    BadMinimum { found: String, error: NumberError },
    /// A maximum is not a whole number.
    BadMaximum { found: String, error: NumberError },
    /// A maximum is below the minimum of its task.
    MaxBelowMin,
    /// A worker's line has fewer fields than there are tasks.
    TooFewAffinities { worker: String },
    /// The network did not take the task or the worker.
    Rejected(InputError),
}

/// The text that says why a text is not a whole number.
pub open spec fn number_error_text(error: NumberError) -> Seq<char> {
    match error {
        NumberError::Empty => "cannot parse integer from empty string"@,
        NumberError::InvalidDigit => "invalid digit found in string"@,
        NumberError::TooLarge => "number too large to fit in target type"@,
    }
}

/// The text that says why the network did not take a task or a worker.
pub open spec fn input_error_text(error: InputError) -> Seq<char> {
    match error {
        InputError::MaxBelowMin => "Maximum cannot be less than minimum!"@,
        InputError::TotalTooLarge => "Too many workers asked for in total!"@,
        InputError::UnknownTask => "Affinity provided for unknown task!"@,
        InputError::RepeatedTask => "Affinity provided twice for one task!"@,
        InputError::CostOutOfRange => "Affinity out of range!"@,
    }
}

/// The message that goes with each failure.
pub open spec fn read_error_text(error: ReadError) -> Seq<char> {
    match error {
        ReadError::EmptyInput => "Empty input file!"@,
        ReadError::NoMinima => "No minimum requirements for tasks!"@,
        ReadError::NoMaxima => "No maximum capacities for tasks!"@,
        ReadError::MismatchedTaskData => "Mismatched input data for tasks: each task must have both a minimum and a maximum number of workers specified."@,
        ReadError::BadMinimum { found, error } => "Expected integer minimum, found \""@ + found@
            + "\"; error: "@ + number_error_text(error),
        ReadError::BadMaximum { found, error } => "Expected integer maximum, found \""@ + found@
            + "\"; error: "@ + number_error_text(error),
        ReadError::MaxBelowMin => "Maximum cannot be less than minimum!"@,
        ReadError::TooFewAffinities { worker } => "Too few task affinities for worker "@ + worker@
            + "!"@,
        ReadError::Rejected(error) => input_error_text(error),
    }
}

/// Gives `number_error_text` as a string.
fn number_error_message(error: NumberError) -> (text: &'static str)
    ensures
        text@ == number_error_text(error),
{
    match error {
        NumberError::Empty => "cannot parse integer from empty string",
        NumberError::InvalidDigit => "invalid digit found in string",
        NumberError::TooLarge => "number too large to fit in target type",
    }
}

/// Gives `input_error_text` as a string.
fn input_error_message(error: InputError) -> (text: &'static str)
    ensures
        text@ == input_error_text(error),
{
    match error {
        InputError::MaxBelowMin => "Maximum cannot be less than minimum!",
        InputError::TotalTooLarge => "Too many workers asked for in total!",
        InputError::UnknownTask => "Affinity provided for unknown task!",
        InputError::RepeatedTask => "Affinity provided twice for one task!",
        InputError::CostOutOfRange => "Affinity out of range!",
    }
}

impl ReadError {
    /// The message for the user.
    pub fn describe(&self) -> (text: String)
        ensures
            text@ == read_error_text(*self),
    {
        match self {
            ReadError::EmptyInput => String::from_str("Empty input file!"),
            ReadError::NoMinima => String::from_str("No minimum requirements for tasks!"),
            ReadError::NoMaxima => String::from_str("No maximum capacities for tasks!"),
            ReadError::MismatchedTaskData => String::from_str(
                "Mismatched input data for tasks: each task must have both a minimum and a maximum number of workers specified.",
            ),
            ReadError::BadMinimum { found, error } => String::from_str(
                "Expected integer minimum, found \"",
            ).concat(found.as_str()).concat("\"; error: ").concat(number_error_message(*error)),
            ReadError::BadMaximum { found, error } => String::from_str(
                "Expected integer maximum, found \"",
            ).concat(found.as_str()).concat("\"; error: ").concat(number_error_message(*error)),
            ReadError::MaxBelowMin => String::from_str("Maximum cannot be less than minimum!"),
            ReadError::TooFewAffinities { worker } => String::from_str(
                "Too few task affinities for worker ",
            ).concat(worker.as_str()).concat("!"),
            ReadError::Rejected(error) => String::from_str(input_error_message(*error)),
        }
    }
}

/// A task as a table declares it.
pub struct TaskEntry {
    pub name: String,
    pub min_workers: usize,
    pub max_workers: usize,
}

/// Column `k` of the three task lines declares the task `entry`: its name is
/// the trimmed field of the first line, and its bounds are the numbers that
/// the trimmed fields of the other two lines write, the maximum no less than
/// the minimum.
pub open spec fn declares(
    names: Seq<Seq<char>>,
    minima: Seq<Seq<char>>,
    maxima: Seq<Seq<char>>,
    k: int,
    entry: TaskEntry,
) -> bool {
    &&& entry.name@ == trimmed(names[k])
    &&& reads_as(trimmed(minima[k]), Ok(entry.min_workers))
    &&& reads_as(trimmed(maxima[k]), Ok(entry.max_workers))
    &&& entry.min_workers <= entry.max_workers
}

/// Column `k` of the three task lines declares a task.
pub open spec fn column_ok(names: Seq<Seq<char>>, minima: Seq<Seq<char>>, maxima: Seq<Seq<char>>, k: int) -> bool {
    exists|entry: TaskEntry| declares(names, minima, maxima, k, entry)
}

/// What is wrong with column `k` of the three task lines.
pub open spec fn column_fault(minima: Seq<Seq<char>>, maxima: Seq<Seq<char>>, k: int, error: ReadError) -> bool {
    match error {
        ReadError::BadMinimum { found, error } => found@ == minima[k] && reads_as(
            trimmed(minima[k]),
            Err(error),
        ),
        ReadError::BadMaximum { found, error } => found@ == maxima[k] && reads_as(
            trimmed(maxima[k]),
            Err(error),
        ) && exists|min: usize| reads_as(trimmed(minima[k]), Ok(min)),
        ReadError::MaxBelowMin => exists|min: usize, max: usize|
            reads_as(trimmed(minima[k]), Ok(min)) && reads_as(trimmed(maxima[k]), Ok(max)) && max < min,
        _ => false,
    }
}

/// The three task lines have equally many fields.
pub open spec fn same_width(names: Seq<Seq<char>>, minima: Seq<Seq<char>>, maxima: Seq<Seq<char>>) -> bool {
    names.len() == minima.len() && names.len() == maxima.len()
}

/// Every column of the three task lines from the second on declares a task.
pub open spec fn columns_ok(names: Seq<Seq<char>>, minima: Seq<Seq<char>>, maxima: Seq<Seq<char>>) -> bool {
    forall|k: int| 1 <= k < names.len() ==> #[trigger] column_ok(names, minima, maxima, k)
}

/// `error` says what is wrong with the first column, from the second on,
/// that declares no task.
pub open spec fn first_fault(
    names: Seq<Seq<char>>,
    minima: Seq<Seq<char>>,
    maxima: Seq<Seq<char>>,
    error: ReadError,
) -> bool {
    exists|k: int|
        {
            &&& 1 <= k < names.len()
            &&& #[trigger] column_fault(minima, maxima, k, error)
            &&& forall|j: int| 1 <= j < k ==> #[trigger] column_ok(names, minima, maxima, j)
        }
}

/// What the numbers in the columns of `fields` add up to, from the second
/// column up to column `upto`.
pub open spec fn column_total(fields: Seq<Seq<char>>, upto: int) -> nat
    decreases upto,
{
    if upto <= 1 {
        0
    } else {
        column_total(fields, upto - 1) + count_of(trimmed(fields[upto - 1]))
    }
}

/// The network can add the minima and the maxima of the task lines to its
/// totals.
pub open spec fn totals_fit(v: NetworkView, minima: Seq<Seq<char>>, maxima: Seq<Seq<char>>) -> bool {
    &&& v.sum_of_minima + column_total(minima, minima.len() as int) <= usize::MAX
    &&& v.sum_of_maxima + column_total(maxima, maxima.len() as int) <= usize::MAX
}

/// The three task lines declare tasks that the network `v` can take: the
/// lines have equally many fields, every column from the second on declares
/// a task, and the totals of the network have room for their bounds.
pub open spec fn tasks_fit(v: NetworkView, task_names: Seq<char>, task_minima: Seq<char>, task_maxima: Seq<char>) -> bool {
    &&& same_width(fields_of(task_names), fields_of(task_minima), fields_of(task_maxima))
    &&& columns_ok(fields_of(task_names), fields_of(task_minima), fields_of(task_maxima))
    &&& totals_fit(v, fields_of(task_minima), fields_of(task_maxima))
}

/// Why three task lines that do not fit the network `v` are refused: for
/// their differing numbers of fields; else for the first column that
/// declares no task; else for totals that the network has no room for.
pub open spec fn tasks_refused(
    v: NetworkView,
    task_names: Seq<char>,
    task_minima: Seq<char>,
    task_maxima: Seq<char>,
    error: ReadError,
) -> bool {
    let names = fields_of(task_names);
    let minima = fields_of(task_minima);
    let maxima = fields_of(task_maxima);
    match error {
        ReadError::MismatchedTaskData => !same_width(names, minima, maxima),
        ReadError::Rejected(rejected) => {
            &&& rejected == InputError::TotalTooLarge
            &&& same_width(names, minima, maxima)
            &&& columns_ok(names, minima, maxima)
            &&& !totals_fit(v, minima, maxima)
        },
        _ => same_width(names, minima, maxima) && first_fault(names, minima, maxima, error),
    }
}

/// A column with a fault declares no task.
pub proof fn lemma_fault_is_not_ok(
    names: Seq<Seq<char>>,
    minima: Seq<Seq<char>>,
    maxima: Seq<Seq<char>>,
    k: int,
    error: ReadError,
)
    requires
        column_fault(minima, maxima, k, error),
    ensures
        !column_ok(names, minima, maxima, k),
{
    if column_ok(names, minima, maxima, k) {
        let entry = choose|entry: TaskEntry| declares(names, minima, maxima, k, entry);
        match error {
            ReadError::BadMinimum { found, error } => {
                lemma_reads_one_way(trimmed(minima[k]), Ok(entry.min_workers), Err(error));
            },
            ReadError::BadMaximum { found, error } => {
                lemma_reads_one_way(trimmed(maxima[k]), Ok(entry.max_workers), Err(error));
            },
            ReadError::MaxBelowMin => {
                let (min, max) = choose|min: usize, max: usize|
                    reads_as(trimmed(minima[k]), Ok(min)) && reads_as(trimmed(maxima[k]), Ok(max)) && max < min;
                lemma_reads_one_way(trimmed(minima[k]), Ok(entry.min_workers), Ok(min));
                lemma_reads_one_way(trimmed(maxima[k]), Ok(entry.max_workers), Ok(max));
            },
            _ => {},
        }
    }
}

/// Task lines that fit are not refused, whatever the error.
pub proof fn lemma_fit_or_refused(
    v: NetworkView,
    task_names: Seq<char>,
    task_minima: Seq<char>,
    task_maxima: Seq<char>,
    error: ReadError,
)
    requires
        tasks_refused(v, task_names, task_minima, task_maxima, error),
    ensures
        !tasks_fit(v, task_names, task_minima, task_maxima),
{
    let names = fields_of(task_names);
    let minima = fields_of(task_minima);
    let maxima = fields_of(task_maxima);
    if same_width(names, minima, maxima) && !(error is Rejected) {
        let k = choose|k: int|
            {
                &&& 1 <= k < names.len()
                &&& #[trigger] column_fault(minima, maxima, k, error)
                &&& forall|j: int| 1 <= j < k ==> #[trigger] column_ok(names, minima, maxima, j)
            };
        lemma_fault_is_not_ok(names, minima, maxima, k, error);
    }
}

/// The bounds of the tasks that the columns declare add up to the totals of
/// the columns.
pub proof fn lemma_declared_totals(
    entries: Seq<TaskEntry>,
    names: Seq<Seq<char>>,
    minima: Seq<Seq<char>>,
    maxima: Seq<Seq<char>>,
    upto: int,
)
    requires
        0 <= upto <= entries.len(),
        forall|k: int| 0 <= k < entries.len() ==> declares(names, minima, maxima, k + 1, #[trigger] entries[k]),
    ensures
        minima_of(entries.take(upto)) == column_total(minima, upto + 1),
        maxima_of(entries.take(upto)) == column_total(maxima, upto + 1),
    decreases upto,
{
    if upto > 0 {
        lemma_declared_totals(entries, names, minima, maxima, upto - 1);
        assert(entries.take(upto).drop_last() =~= entries.take(upto - 1));
        assert(entries.take(upto).last() == entries[upto - 1]);
        assert(declares(names, minima, maxima, upto, entries[upto - 1]));
    }
}

/// The network after the tasks of `entries` were added one after the other.
pub open spec fn with_tasks(v: NetworkView, entries: Seq<TaskEntry>) -> NetworkView
    decreases entries.len(),
{
    if entries.len() == 0 {
        v
    } else {
        with_tasks(v, entries.drop_last()).with_task(
            entries.last().name@,
            entries.last().min_workers as nat,
            entries.last().max_workers as nat,
        )
    }
}

/// What the minima of `entries` add up to.
pub open spec fn minima_of(entries: Seq<TaskEntry>) -> nat
    decreases entries.len(),
{
    if entries.len() == 0 {
        0
    } else {
        minima_of(entries.drop_last()) + entries.last().min_workers as nat
    }
}

/// What the maxima of `entries` add up to.
pub open spec fn maxima_of(entries: Seq<TaskEntry>) -> nat
    decreases entries.len(),
{
    if entries.len() == 0 {
        0
    } else {
        maxima_of(entries.drop_last()) + entries.last().max_workers as nat
    }
}

/// Reads the tasks that three lines of a table declare, one task per column
/// from the second column on.
///
/// Fails if the lines differ in their number of fields, and else with what
/// is wrong with the first column that does not declare a task.
pub fn read_task_columns(task_names: &str, task_minima: &str, task_maxima: &str) -> (res: Result<
    Vec<TaskEntry>,
    ReadError,
>)
    ensures
        match res {
            Ok(entries) => {
                &&& fields_of(task_names@).len() == fields_of(task_minima@).len()
                &&& fields_of(task_names@).len() == fields_of(task_maxima@).len()
                &&& entries@.len() == fields_of(task_names@).len() - 1
                &&& forall|k: int|
                    0 <= k < entries@.len() ==> declares(
                        fields_of(task_names@),
                        fields_of(task_minima@),
                        fields_of(task_maxima@),
                        k + 1,
                        #[trigger] entries@[k],
                    )
            },
            Err(ReadError::MismatchedTaskData) => !same_width(
                fields_of(task_names@),
                fields_of(task_minima@),
                fields_of(task_maxima@),
            ),
            Err(error) => {
                &&& same_width(fields_of(task_names@), fields_of(task_minima@), fields_of(task_maxima@))
                &&& first_fault(fields_of(task_names@), fields_of(task_minima@), fields_of(task_maxima@), error)
            },
        },
{
    let names = split_fields(task_names);
    let minima = split_fields(task_minima);
    let maxima = split_fields(task_maxima);
    if names.len() != minima.len() || names.len() != maxima.len() {
        return Err(ReadError::MismatchedTaskData);
    }
    let ghost name_fields = fields_of(task_names@);
    let ghost min_fields = fields_of(task_minima@);
    let ghost max_fields = fields_of(task_maxima@);
    let mut entries: Vec<TaskEntry> = Vec::new();
    let mut k: usize = 1;
    while k < names.len()
        invariant
            name_fields == fields_of(task_names@),
            min_fields == fields_of(task_minima@),
            max_fields == fields_of(task_maxima@),
            texts(names@) == name_fields,
            texts(minima@) == min_fields,
            texts(maxima@) == max_fields,
            names@.len() == minima@.len(),
            names@.len() == maxima@.len(),
            names@.len() >= 1,
            1 <= k <= names.len(),
            entries@.len() == k - 1,
            forall|j: int|
                0 <= j < entries@.len() ==> declares(name_fields, min_fields, max_fields, j + 1, #[trigger] entries@[j]),
        decreases names.len() - k,
    {
        proof {
            assert(texts(names@)[k as int] == names@[k as int]@);
            assert(texts(minima@)[k as int] == minima@[k as int]@);
            assert(texts(maxima@)[k as int] == maxima@[k as int]@);
            assert forall|j: int| 1 <= j < k implies #[trigger] column_ok(
                name_fields,
                min_fields,
                max_fields,
                j,
            ) by {
                assert(declares(name_fields, min_fields, max_fields, j, entries@[j - 1]));
            }
        }
        let min_text = trim_text(minima[k].as_str());
        let lower = match parse_count(min_text.as_str()) {
            Ok(m) => m,
            Err(error) => {
                let fault = ReadError::BadMinimum { found: minima[k].clone(), error };
                proof {
                    assert(column_fault(min_fields, max_fields, k as int, fault));
                }
                return Err(fault);
            },
        };
        let max_text = trim_text(maxima[k].as_str());
        let upper = match parse_count(max_text.as_str()) {
            Ok(m) => m,
            Err(error) => {
                let fault = ReadError::BadMaximum { found: maxima[k].clone(), error };
                proof {
                    assert(reads_as(trimmed(min_fields[k as int]), Ok(lower)));
                    assert(column_fault(min_fields, max_fields, k as int, fault));
                }
                return Err(fault);
            },
        };
        if upper < lower {
            proof {
                assert(reads_as(trimmed(min_fields[k as int]), Ok(lower)));
                assert(reads_as(trimmed(max_fields[k as int]), Ok(upper)));
                assert(column_fault(min_fields, max_fields, k as int, ReadError::MaxBelowMin));
            }
            return Err(ReadError::MaxBelowMin);
        }
        let entry = TaskEntry {
            name: trim_text(names[k].as_str()),
            min_workers: lower,
            max_workers: upper,
        };
        let ghost before = entries@;
        entries.push(entry);
        proof {
            assert forall|j: int| 0 <= j < entries@.len() implies declares(
                name_fields,
                min_fields,
                max_fields,
                j + 1,
                #[trigger] entries@[j],
            ) by {
                if j < before.len() {
                    assert(entries@[j] == before[j]);
                }
            }
        }
        k += 1;
    }
    Ok(entries)
}

/// The three task lines declare, column by column from the second on, tasks
/// that were added to the network in that order, and whose names the reader
/// has noted.
pub open spec fn tasks_added(
    before: NetworkView,
    names_before: Seq<Seq<char>>,
    task_names: Seq<char>,
    task_minima: Seq<char>,
    task_maxima: Seq<char>,
    after: NetworkView,
    names_after: Seq<Seq<char>>,
) -> bool {
    exists|entries: Seq<TaskEntry>|
        {
            &&& entries.len() == fields_of(task_names).len() - 1
            &&& forall|k: int|
                0 <= k < entries.len() ==> declares(
                    fields_of(task_names),
                    fields_of(task_minima),
                    fields_of(task_maxima),
                    k + 1,
                    #[trigger] entries[k],
                )
            &&& #[trigger] with_tasks(before, entries) == after
            &&& names_after == names_before + entry_names(entries)
        }
}

/// A reader of tables that declare tasks and workers. It remembers the
/// names of the tasks in the order of their columns, to pair them with the
/// costs in the lines of the workers.
pub struct CsvReader {
    tasks: Vec<String>,
}

impl View for CsvReader {
    type V = Seq<Seq<char>>;

    /// The names of the tasks read so far, in the order of their columns.
    closed spec fn view(&self) -> Seq<Seq<char>> {
        names_view(self.tasks@)
    }
}

/// The names of `entries`.
pub open spec fn entry_names(entries: Seq<TaskEntry>) -> Seq<Seq<char>> {
    Seq::new(entries.len(), |i: int| entries[i].name@)
}

/// A worker's costs, paired with the names of the tasks: the tasks whose
/// cost is given, in order, each with its cost.
pub open spec fn paired_upto(tasks: Seq<Seq<char>>, costs: Seq<Option<i64>>, upto: int) -> Seq<
    (Seq<char>, i64),
>
    decreases upto,
{
    if upto <= 0 {
        Seq::empty()
    } else if costs[upto - 1] is Some {
        paired_upto(tasks, costs, upto - 1).push((tasks[upto - 1], costs[upto - 1].unwrap()))
    } else {
        paired_upto(tasks, costs, upto - 1)
    }
}

/// What a field of a worker's line says of a task: the text that writes the
/// cost, or nothing where the field is empty, which means that the worker
/// does not accept the task.
pub open spec fn cost_field(field: Seq<char>) -> Option<Seq<char>> {
    if field.len() == 0 {
        None
    } else {
        Some(field)
    }
}

/// An entry of a worker's line as plain text.
pub open spec fn cost_text(entry: Option<String>) -> Option<Seq<char>> {
    match entry {
        Some(text) => Some(text@),
        None => None,
    }
}

impl CsvReader {
    /// A reader that has read no task yet.
    pub fn new() -> (reader: CsvReader)
        ensures
            reader@ == Seq::<Seq<char>>::empty(),
    {
        let reader = CsvReader { tasks: Vec::new() };
        proof {
            assert(reader@ =~= Seq::<Seq<char>>::empty());
        }
        reader
    }

    /// The names of the tasks read so far, in the order of their columns.
    pub fn clone_task_names(&self) -> (names: Vec<String>)
        ensures
            names_view(names@) == self@,
    {
        let mut names: Vec<String> = Vec::new();
        let mut i: usize = 0;
        while i < self.tasks.len()
            invariant
                i <= self.tasks.len(),
                names@.len() == i,
                forall|j: int| 0 <= j < i ==> (#[trigger] names@[j])@ == self.tasks@[j]@,
            decreases self.tasks.len() - i,
        {
            names.push(self.tasks[i].clone());
            i += 1;
        }
        proof {
            assert(names_view(names@) =~= self@);
        }
        names
    }

    /// Reads the tasks that three lines of a table declare and adds them to
    /// the network, in the order of their columns.
    ///
    /// Succeeds just if the lines have equally many fields, every column
    /// from the second on declares a task, and the network has room for the
    /// tasks' bounds. Else nothing is added, and the error says which of
    /// these failed first; for a column, what is wrong with the first
    /// column that declares no task.
    pub fn process_tasks(
        &mut self,
        network: &mut Network,
        task_names: &str,
        task_minima: &str,
        task_maxima: &str,
    ) -> (res: Result<(), ReadError>)
        requires
            old(network)@.wf(),
            old(network)@.unsolved(),
        ensures
            final(network)@.wf(),
            final(network)@.unsolved(),
            match res {
                Ok(_) => tasks_added(
                    old(network)@,
                    old(self)@,
                    task_names@,
                    task_minima@,
                    task_maxima@,
                    final(network)@,
                    final(self)@,
                ),
                Err(error) => {
                    &&& final(network)@ == old(network)@
                    &&& final(self)@ == old(self)@
                    &&& tasks_refused(old(network)@, task_names@, task_minima@, task_maxima@, error)
                },
            },
            res is Ok <==> tasks_fit(old(network)@, task_names@, task_minima@, task_maxima@),
    {
        let entries = match read_task_columns(task_names, task_minima, task_maxima) {
            Ok(entries) => entries,
            Err(error) => {
                proof {
                    lemma_fit_or_refused(old(network)@, task_names@, task_minima@, task_maxima@, error);
                }
                return Err(error);
            },
        };
        let ghost name_fields = fields_of(task_names@);
        let ghost min_fields = fields_of(task_minima@);
        let ghost max_fields = fields_of(task_maxima@);
        proof {
            assert forall|k: int| 1 <= k < name_fields.len() implies #[trigger] column_ok(
                name_fields,
                min_fields,
                max_fields,
                k,
            ) by {
                assert(declares(name_fields, min_fields, max_fields, k, entries@[k - 1]));
            }
            lemma_declared_totals(entries@, name_fields, min_fields, max_fields, entries@.len() as int);
            assert(entries@.take(entries@.len() as int) =~= entries@);
        }
        // The network takes the tasks only if their bounds can be added to
        // its totals.
        let mut room_min = network.room_for_minima();
        let mut room_max = network.room_for_maxima();
        let mut i: usize = 0;
        while i < entries.len()
            invariant
                i <= entries.len(),
                network@ == old(network)@,
                network@.wf(),
                network@.unsolved(),
                self@ == old(self)@,
                name_fields == fields_of(task_names@),
                min_fields == fields_of(task_minima@),
                max_fields == fields_of(task_maxima@),
                same_width(name_fields, min_fields, max_fields),
                columns_ok(name_fields, min_fields, max_fields),
                entries@.len() == name_fields.len() - 1,
                minima_of(entries@) == column_total(min_fields, min_fields.len() as int),
                maxima_of(entries@) == column_total(max_fields, max_fields.len() as int),
                room_min + minima_of(entries@.take(i as int)) + network@.sum_of_minima == usize::MAX,
                room_max + maxima_of(entries@.take(i as int)) + network@.sum_of_maxima == usize::MAX,
            decreases entries.len() - i,
        {
            proof {
                assert(entries@.take(i + 1).drop_last() =~= entries@.take(i as int));
            }
            if entries[i].min_workers > room_min || entries[i].max_workers > room_max {
                proof {
                    lemma_sums_grow(entries@, i + 1);
                }
                return Err(ReadError::Rejected(InputError::TotalTooLarge));
            }
            room_min = room_min - entries[i].min_workers;
            room_max = room_max - entries[i].max_workers;
            i += 1;
        }
        let ghost before = network@;
        let ghost names_before = self@;
        let mut k: usize = 0;
        proof {
            assert(entries@.take(entries@.len() as int) =~= entries@);
            assert(entry_names(entries@.take(0)) =~= Seq::<Seq<char>>::empty());
            assert(names_before + Seq::<Seq<char>>::empty() =~= names_before);
        }
        while k < entries.len()
            invariant
                k <= entries.len(),
                network@.wf(),
                network@.unsolved(),
                network@ == with_tasks(before, entries@.take(k as int)),
                network@.sum_of_minima == before.sum_of_minima + minima_of(entries@.take(k as int)),
                network@.sum_of_maxima == before.sum_of_maxima + maxima_of(entries@.take(k as int)),
                minima_of(entries@) + before.sum_of_minima <= usize::MAX,
                maxima_of(entries@) + before.sum_of_maxima <= usize::MAX,
                forall|j: int| 0 <= j < entries@.len() ==> (#[trigger] entries@[j]).min_workers <= entries@[j].max_workers,
                self@ == names_before + entry_names(entries@.take(k as int)),
            decreases entries.len() - k,
        {
            proof {
                assert(entries@.take(k + 1).drop_last() =~= entries@.take(k as int));
                lemma_sums_grow(entries@, k + 1);
                assert(entries@[k as int].min_workers <= entries@[k as int].max_workers);
            }
            let name = entries[k].name.clone();
            let ghost name_text = name@;
            let ghost tasks_before = self.tasks@;
            let ghost view_before = self@;
            self.tasks.push(entries[k].name.clone());
            let added = network.add_task(name, entries[k].min_workers, entries[k].max_workers);
            proof {
                assert(added is Ok);
                assert(entry_names(entries@.take(k + 1)) =~= entry_names(entries@.take(k as int)).push(
                    entries@[k as int].name@,
                ));
                assert(self.tasks@[self.tasks@.len() - 1]@ == entries@[k as int].name@);
                let target = names_before + entry_names(entries@.take(k + 1));
                assert(view_before.len() == tasks_before.len());
                assert(self@.len() == target.len());
                assert forall|j: int| 0 <= j < target.len() implies self@[j] == target[j] by {
                    if j < tasks_before.len() {
                        assert(self.tasks@[j] == tasks_before[j]);
                        assert(view_before[j] == tasks_before[j]@);
                        assert(view_before[j] == (names_before + entry_names(entries@.take(k as int)))[j]);
                    }
                }
                assert(self@ =~= target);
            }
            k += 1;
        }
        proof {
            assert(entries@.take(k as int) =~= entries@);
            assert(with_tasks(before, entries@) == network@);
            assert(self@ == names_before + entry_names(entries@));
            assert forall|j: int| 0 <= j < entries@.len() implies declares(
                fields_of(task_names@),
                fields_of(task_minima@),
                fields_of(task_maxima@),
                j + 1,
                #[trigger] entries@[j],
            ) by {}
        }
        Ok(())
    }

    /// Reads the tasks that the first three lines of a table declare and adds
    /// them to the network. A table must hold a line of task names, a line of
    /// minima and a line of maxima; these three are then read as
    /// `process_tasks` reads them.
    ///
    /// On failure nothing is added.
    pub fn process_header(&mut self, network: &mut Network, lines: &Vec<String>) -> (res: Result<
        (),
        ReadError,
    >)
        requires
            old(network)@.wf(),
            old(network)@.unsolved(),
        ensures
            final(network)@.wf(),
            final(network)@.unsolved(),
            res matches Err(ReadError::EmptyInput) <==> lines@.len() == 0,
            res matches Err(ReadError::NoMinima) <==> lines@.len() == 1,
            res matches Err(ReadError::NoMaxima) <==> lines@.len() == 2,
            match res {
                Ok(_) => lines@.len() >= 3 && tasks_added(
                    old(network)@,
                    old(self)@,
                    lines@[0]@,
                    lines@[1]@,
                    lines@[2]@,
                    final(network)@,
                    final(self)@,
                ),
                Err(error) => {
                    &&& final(network)@ == old(network)@
                    &&& final(self)@ == old(self)@
                    &&& lines@.len() >= 3 ==> tasks_refused(
                        old(network)@,
                        lines@[0]@,
                        lines@[1]@,
                        lines@[2]@,
                        error,
                    )
                },
            },
            res is Ok <==> lines@.len() >= 3 && tasks_fit(old(network)@, lines@[0]@, lines@[1]@, lines@[2]@),
    {
        if lines.len() == 0 {
            return Err(ReadError::EmptyInput);
        }
        if lines.len() == 1 {
            return Err(ReadError::NoMinima);
        }
        if lines.len() == 2 {
            return Err(ReadError::NoMaxima);
        }
        self.process_tasks(network, lines[0].as_str(), lines[1].as_str(), lines[2].as_str())
    }

    /// Splits the line of a worker into the worker's name and what the line
    /// says of each task read so far, in the order of the tasks' columns: the
    /// text that writes the cost, or nothing where the field is empty and the
    /// worker does not accept the task. A line with fewer fields than there
    /// are tasks gives as many entries as it has fields; what follows the
    /// fields of the tasks is ignored.
    pub fn worker_fields(&self, worker_info: &str) -> (res: (String, Vec<Option<String>>))
        ensures
            res.0@ == trimmed(fields_of(worker_info@)[0]),
            res.1@.len() == if fields_of(worker_info@).len() - 1 < self@.len() {
                fields_of(worker_info@).len() - 1
            } else {
                self@.len() as int
            },
            forall|j: int|
                0 <= j < res.1@.len() ==> cost_text(#[trigger] res.1@[j]) == cost_field(
                    fields_of(worker_info@)[j + 1],
                ),
    {
        let info = split_fields(worker_info);
        let worker_name = trim_text(info[0].as_str());
        proof {
            assert(texts(info@)[0] == info@[0]@);
            assert(self@.len() == self.tasks@.len());
        }
        let mut fields: Vec<Option<String>> = Vec::new();
        let mut i: usize = 0;
        while i < self.tasks.len() && i + 1 < info.len()
            invariant
                i <= self.tasks.len(),
                i + 1 <= info@.len(),
                fields@.len() == i,
                forall|j: int| 0 <= j < i ==> cost_text(#[trigger] fields@[j]) == cost_field(info@[j + 1]@),
            decreases self.tasks.len() - i,
        {
            let field = info[i + 1].clone();
            let entry = if field.as_str().unicode_len() == 0 {
                None
            } else {
                Some(field)
            };
            fields.push(entry);
            i += 1;
        }
        proof {
            assert forall|j: int| 0 <= j < fields@.len() implies cost_text(#[trigger] fields@[j]) == cost_field(
                fields_of(worker_info@)[j + 1],
            ) by {
                assert(texts(info@)[j + 1] == info@[j + 1]@);
            }
        }
        (worker_name, fields)
    }

    /// Adds a worker to the network who accepts each task read so far whose
    /// cost is given, at that cost. `costs` holds one entry for each task in
    /// the order of the tasks' columns; entries beyond the tasks are ignored.
    ///
    /// If there are fewer entries than tasks, or the network does not take
    /// the worker, nothing is added.
    pub fn process_worker(&self, network: &mut Network, worker_name: String, costs: &Vec<Option<i64>>) -> (res:
        Result<(), ReadError>)
        requires
            old(network)@.wf(),
            old(network)@.unsolved(),
        ensures
            final(network)@.wf(),
            final(network)@.unsolved(),
            match res {
                Ok(_) => {
                    &&& costs@.len() >= self@.len()
                    &&& final(network)@ == old(network)@.with_worker(
                        worker_name@,
                        old(network)@.resolved(paired_upto(self@, costs@, self@.len() as int)),
                    )
                },
                Err(ReadError::TooFewAffinities { worker }) => {
                    &&& costs@.len() < self@.len()
                    &&& worker@ == worker_name@
                    &&& final(network)@ == old(network)@
                },
                Err(ReadError::Rejected(error)) => {
                    &&& costs@.len() >= self@.len()
                    &&& final(network)@ == old(network)@
                    &&& exists|i: int|
                        {
                            &&& 0 <= i < paired_upto(self@, costs@, self@.len() as int).len()
                            &&& #[trigger] old(network)@.entry_error(
                                paired_upto(self@, costs@, self@.len() as int),
                                i,
                            ) == Some(error)
                            &&& forall|j: int|
                                0 <= j < i ==> old(network)@.entry_error(
                                    paired_upto(self@, costs@, self@.len() as int),
                                    j,
                                ) is None
                        }
                },
                Err(_) => false,
            },
    {
        proof {
            assert(self@.len() == self.tasks@.len());
        }
        if costs.len() < self.tasks.len() {
            return Err(ReadError::TooFewAffinities { worker: worker_name });
        }
        let mut affinities: Vec<(String, i64)> = Vec::new();
        let mut i: usize = 0;
        while i < self.tasks.len()
            invariant
                i <= self.tasks.len(),
                self.tasks@.len() <= costs@.len(),
                crate::network::affinities_view(affinities@) == paired_upto(self@, costs@, i as int),
            decreases self.tasks.len() - i,
        {
            let ghost before = affinities@;
            match costs[i] {
                Some(cost) => {
                    affinities.push((self.tasks[i].clone(), cost));
                    proof {
                        assert(self@[i as int] == self.tasks@[i as int]@);
                        assert(crate::network::affinities_view(affinities@) =~= crate::network::affinities_view(
                            before,
                        ).push((self@[i as int], cost)));
                    }
                },
                None => {},
            }
            i += 1;
        }
        match network.add_worker(worker_name, &affinities) {
            Ok(_) => Ok(()),
            Err(error) => Err(ReadError::Rejected(error)),
        }
    }
}

/// The fields `cells` as one line, with commas between them.
pub open spec fn joined(cells: Seq<Seq<char>>) -> Seq<char>
    decreases cells.len(),
{
    if cells.len() == 0 {
        Seq::empty()
    } else if cells.len() == 1 {
        cells[0]
    } else {
        joined(cells.drop_last()) + seq![','] + cells.last()
    }
}

/// What stands in row `row` of the column of the task named `task`: the
/// name of the worker that is assigned to the task in that place, or nothing
/// if the task has fewer workers.
pub open spec fn cell(v: NetworkView, task: Seq<char>, row: int) -> Seq<char> {
    let workers = v.assigned_names(v.task_ids[task] as int);
    if row < workers.len() {
        workers[row]
    } else {
        Seq::empty()
    }
}

/// The cells of row `row`, one for each of the tasks `tasks`.
pub open spec fn row_cells(v: NetworkView, tasks: Seq<Seq<char>>, row: int) -> Seq<Seq<char>> {
    Seq::new(tasks.len(), |k: int| cell(v, tasks[k], row))
}

/// The most workers that any of the first `upto` tasks of `tasks` has.
pub open spec fn longest_upto(v: NetworkView, tasks: Seq<Seq<char>>, upto: int) -> nat
    decreases upto,
{
    if upto <= 0 {
        0
    } else {
        let rest = longest_upto(v, tasks, upto - 1);
        let here = v.assigned_names(v.task_ids[tasks[upto - 1]] as int).len();
        if here > rest {
            here
        } else {
            rest
        }
    }
}

/// A writer of assignments as the lines of a comma-separated table: one
/// column for each task, headed by the task's name, with the names of the
/// task's workers below it.
pub struct CsvWriter {
    task_names: Vec<String>,
}

impl View for CsvWriter {
    type V = Seq<Seq<char>>;

    /// The names of the tasks, in the order of their columns.
    closed spec fn view(&self) -> Seq<Seq<char>> {
        names_view(self.task_names@)
    }
}

impl CsvWriter {
    /// A writer for the tasks `task_names`, in that order.
    pub fn new(task_names: Vec<String>) -> (writer: CsvWriter)
        ensures
            writer@ == names_view(task_names@),
    {
        CsvWriter { task_names }
    }

    /// The line of task names that heads the table.
    pub fn header(&self) -> (line: String)
        ensures
            line@ == joined(self@),
    {
        let mut line = String::new();
        let mut k: usize = 0;
        while k < self.task_names.len()
            invariant
                k <= self.task_names.len(),
                line@ == joined(self@.take(k as int)),
            decreases self.task_names.len() - k,
        {
            proof {
                assert(self@.take(k + 1).drop_last() =~= self@.take(k as int));
                assert(self@.take(k + 1).last() == self.task_names@[k as int]@);
            }
            if k > 0 {
                line.append(",");
                proof {
                    reveal_strlit(",");
                    assert(","@ =~= seq![',']);
                }
            }
            line.append(self.task_names[k].as_str());
            proof {
                assert(line@ =~= joined(self@.take(k + 1)));
            }
            k += 1;
        }
        proof {
            assert(self@.take(k as int) =~= self@);
        }
        line
    }

    /// The lines of the table below the header: line `r` holds, for each
    /// task, the name of the worker assigned to it in place `r`, or nothing
    /// if the task has fewer workers. There are as many lines as the task
    /// with the most workers has workers.
    pub fn get_assignments(&self, outputs: &Network) -> (lines: Vec<String>)
        requires
            outputs@.wf(),
            forall|k: int| 0 <= k < self@.len() ==> outputs@.task_ids.dom().contains(#[trigger] self@[k]),
        ensures
            lines@.len() == longest_upto(outputs@, self@, self@.len() as int),
            forall|r: int| 0 <= r < lines@.len() ==> (#[trigger] lines@[r])@ == joined(row_cells(outputs@, self@, r)),
    {
        let ghost v = outputs@;
        let ghost tasks = self@;
        let mut columns: Vec<Vec<String>> = Vec::new();
        let mut longest: usize = 0;
        let mut k: usize = 0;
        while k < self.task_names.len()
            invariant
                v == outputs@,
                v.wf(),
                tasks == self@,
                tasks.len() == self.task_names@.len(),
                forall|j: int| 0 <= j < tasks.len() ==> v.task_ids.dom().contains(#[trigger] tasks[j]),
                k <= self.task_names.len(),
                columns@.len() == k,
                longest == longest_upto(v, tasks, k as int),
                forall|j: int|
                    0 <= j < k ==> names_view((#[trigger] columns@[j])@) == v.assigned_names(
                        v.task_ids[tasks[j]] as int,
                    ),
            decreases self.task_names.len() - k,
        {
            proof {
                assert(tasks[k as int] == self.task_names@[k as int]@);
                assert(v.task_ids.dom().contains(tasks[k as int]));
            }
            let id = outputs.task_id_of(self.task_names[k].as_str()).unwrap();
            let workers = outputs.workers_of_task(id);
            proof {
                assert(names_view(workers@).len() == workers@.len());
            }
            if workers.len() > longest {
                longest = workers.len();
            }
            let ghost before = columns@;
            columns.push(workers);
            proof {
                assert forall|j: int| 0 <= j < k + 1 implies names_view((#[trigger] columns@[j])@)
                    == v.assigned_names(v.task_ids[tasks[j]] as int) by {
                    if j < k {
                        assert(columns@[j] == before[j]);
                    }
                }
            }
            k += 1;
        }
        let mut lines: Vec<String> = Vec::new();
        let mut r: usize = 0;
        while r < longest
            invariant
                v == outputs@,
                tasks == self@,
                tasks.len() == self.task_names@.len(),
                columns@.len() == tasks.len(),
                forall|j: int|
                    0 <= j < tasks.len() ==> names_view((#[trigger] columns@[j])@) == v.assigned_names(
                        v.task_ids[tasks[j]] as int,
                    ),
                r <= longest,
                lines@.len() == r,
                forall|i: int| 0 <= i < r ==> (#[trigger] lines@[i])@ == joined(row_cells(v, tasks, i)),
            decreases longest - r,
        {
            let mut line = String::new();
            let mut c: usize = 0;
            let ghost cells = row_cells(v, tasks, r as int);
            while c < columns.len()
                invariant
                    v == outputs@,
                    tasks == self@,
                    columns@.len() == tasks.len(),
                    forall|j: int|
                        0 <= j < tasks.len() ==> names_view((#[trigger] columns@[j])@) == v.assigned_names(
                            v.task_ids[tasks[j]] as int,
                        ),
                    cells == row_cells(v, tasks, r as int),
                    c <= columns.len(),
                    line@ == joined(cells.take(c as int)),
                decreases columns.len() - c,
            {
                proof {
                    assert(cells.take(c + 1).drop_last() =~= cells.take(c as int));
                    assert(names_view(columns@[c as int]@) == v.assigned_names(
                        v.task_ids[tasks[c as int]] as int,
                    ));
                    assert(names_view(columns@[c as int]@).len() == columns@[c as int]@.len());
                }
                if c > 0 {
                    line.append(",");
                    proof {
                        reveal_strlit(",");
                        assert(","@ =~= seq![',']);
                    }
                }
                if r < columns[c].len() {
                    line.append(columns[c][r].as_str());
                    proof {
                        assert(names_view(columns@[c as int]@)[r as int] == columns@[c as int]@[r as int]@);
                    }
                }
                proof {
                    assert(line@ =~= joined(cells.take(c + 1)));
                }
                c += 1;
            }
            proof {
                assert(cells.take(c as int) =~= cells);
            }
            let ghost before = lines@;
            lines.push(line);
            proof {
                assert forall|i: int| 0 <= i < r + 1 implies (#[trigger] lines@[i])@ == joined(
                    row_cells(v, tasks, i),
                ) by {
                    if i < r {
                        assert(lines@[i] == before[i]);
                    }
                }
            }
            r += 1;
        }
        lines
    }
}

/// The totals of a longer list of tasks are no less than those of a shorter.
pub proof fn lemma_sums_grow(entries: Seq<TaskEntry>, upto: int)
    requires
        0 <= upto <= entries.len(),
    ensures
        minima_of(entries.take(upto)) <= minima_of(entries),
        maxima_of(entries.take(upto)) <= maxima_of(entries),
    decreases entries.len() - upto,
{
    if upto < entries.len() {
        lemma_sums_grow(entries, upto + 1);
        assert(entries.take(upto + 1).drop_last() =~= entries.take(upto));
    } else {
        assert(entries.take(upto) =~= entries);
    }
}

} // verus!
