//! The annotation scanner.
//!
//! Source files carry marker comments: `ABSTRAKTOR_CONST: name` tags a
//! constant, `ABSTRAKTOR_BLOCK_EVENT` a block, `ABSTRAKTOR_FUNC: a->1, b` a
//! function with its variables.  A marker belongs to the first line of code
//! below it, and an [`Instrumentor`] makes, for each file, the table of those
//! lines with what their markers say.
use super::traces::{parse_trace, trace_of, TraceParseError, VarTraces};
use crate::pattern::{
    captures, captures_iter, compile, regex_builds, regex_captures, regex_captures_iter,
    regex_plain, regex_source,
};
use crate::text::{
    ascii_letter, chars_of, first_ink, is_ascii_letter, is_white_space, lemma_first_ink,
    lemma_first_ink_skips, lines_of, split_lines, string_of, white_space,
};
use regex::Regex;
use std::collections::HashMap;
use vstd::prelude::*;

verus! {

/// The pattern of a constant marker; group 1 is the constant's name.
pub const CONST_PATTERN: &'static str = "ABSTRAKTOR_CONST: (\\w+)";

/// The pattern of a block marker; group 1, where it takes part, is the
/// variable with its trace.  Group 2 takes part where the trace breaks off:
/// where an arrow with no number behind it, or a character of a word, stands
/// right behind the variable, as in `x->abc`, `x->` and `x->5abc`.
pub const BLOCK_PATTERN: &'static str =
    "ABSTRAKTOR_BLOCK_EVENT(?:[:\\s]*(\\w+(?:->\\d+)*)(->|\\w)?)?";

/// The pattern of a function marker; group 1 is the list of variables.
/// Group 2 takes part where a trace breaks off, as in [`BLOCK_PATTERN`].
pub const FUNCTION_PATTERN: &'static str =
    "ABSTRAKTOR_FUNC:\\s*(\\w+(?:->\\d+)*(?:\\s*,\\s*\\w+(?:->\\d+)*)*)(->|\\w)?\\s*";

/// The pattern of one variable in a list; group 1 is its name, group 2 the
/// suffix that spells its trace.
pub const VARIABLE_PATTERN: &'static str = "(\\w+)((?:->\\d+)*)";

/// Does code start on `line`?  It does where the first character that is no
/// white space is an ASCII letter or a closing brace.
pub open spec fn is_code_start(line: Seq<char>) -> bool {
    let k = first_ink(line, 0);
    k < line.len() && (is_ascii_letter(line[k]) || line[k] == '}')
}

/// The number, counted from 1, of the first line at or after index `from` on
/// which code starts.
pub open spec fn next_code_start(lines: Seq<Seq<char>>, from: int) -> Option<int>
    decreases lines.len() - from,
{
    if from < 0 || from >= lines.len() {
        None
    } else if is_code_start(lines[from]) {
        Some(from + 1)
    } else {
        next_code_start(lines, from + 1)
    }
}

/// The lines as sequences of characters.
pub open spec fn text_views(lines: Seq<&str>) -> Seq<Seq<char>> {
    lines.map_values(|line: &str| line@)
}

/// A line of white space alone, and a line whose first ink is a slash, an
/// asterisk or an opening brace, starts no code.  A line whose first ink is
/// an ASCII letter or a closing brace does, whatever follows on it.
pub proof fn lemma_code_start_by_first_ink(line: Seq<char>)
    ensures
        (forall|k: int| 0 <= k < line.len() ==> is_white_space(line[k])) ==> !is_code_start(line),
        forall|k: int|
            0 <= k < line.len() && (forall|j: int| 0 <= j < k ==> is_white_space(line[j])) && (
            line[k] == '/' || line[k] == '*' || line[k] == '{') ==> !is_code_start(line),
        forall|k: int|
            0 <= k < line.len() && (forall|j: int| 0 <= j < k ==> is_white_space(line[j])) && (
            is_ascii_letter(line[k]) || line[k] == '}') ==> is_code_start(line),
{
    lemma_first_ink(line, 0);
    assert forall|k: int|
        0 <= k < line.len() && (forall|j: int| 0 <= j < k ==> is_white_space(line[j]))
            && !is_white_space(line[k]) implies first_ink(line, 0) == k by {
        lemma_first_ink_skips(line, 0, k);
    }
}

/// The line that [`next_code_start`] names starts code, lies at or after
/// `from`, and no line between `from` and it starts code; where it names
/// none, no line from `from` on starts code.
pub proof fn lemma_next_code_start(lines: Seq<Seq<char>>, from: int)
    requires
        0 <= from,
    ensures
        match next_code_start(lines, from) {
            Some(number) => {
                &&& from < number <= lines.len()
                &&& is_code_start(lines[number - 1])
                &&& forall|k: int| from <= k < number - 1 ==> !is_code_start(lines[k])
            },
            None => forall|k: int| from <= k < lines.len() ==> !is_code_start(lines[k]),
        },
    decreases lines.len() - from,
{
    if from < lines.len() && !is_code_start(lines[from]) {
        lemma_next_code_start(lines, from + 1);
    }
}

/// Group `i` of a match: its text, where the match has such a group and the
/// group took part.
pub open spec fn group(groups: Seq<Option<Seq<char>>>, i: int) -> Option<Seq<char>> {
    if 0 <= i < groups.len() {
        groups[i]
    } else {
        None
    }
}

/// Group 1 of a match that was found.
pub open spec fn first_group(found: Option<Seq<Option<Seq<char>>>>) -> Option<Seq<char>> {
    match found {
        Some(groups) => group(groups, 1),
        None => None,
    }
}

/// Whether there is a match and, if so, its group 1, which may be missing.
pub open spec fn optional_group(found: Option<Seq<Option<Seq<char>>>>) -> Option<
    Option<Seq<char>>,
> {
    match found {
        Some(groups) => Some(group(groups, 1)),
        None => None,
    }
}

/// Did group 2 of a match that was found take part?
pub open spec fn second_group_taken(found: Option<Seq<Option<Seq<char>>>>) -> bool {
    match found {
        Some(groups) => group(groups, 2) is Some,
        None => false,
    }
}

/// Does the trace of the block marker on `line` break off: is what follows
/// an arrow there no number?
pub open spec fn block_broken(line: Seq<char>) -> bool {
    second_group_taken(regex_captures(BLOCK_PATTERN@, line))
}

/// Does a trace of the function marker on `line` break off?
pub open spec fn function_broken(line: Seq<char>) -> bool {
    second_group_taken(regex_captures(FUNCTION_PATTERN@, line))
}

/// The name that a constant marker on `line` gives, if there is such a marker.
pub open spec fn const_marker(line: Seq<char>) -> Option<Seq<char>> {
    first_group(regex_captures(CONST_PATTERN@, line))
}

/// Whether `line` has a block marker and, if so, the variable it names, if
/// it names one.
pub open spec fn block_marker(line: Seq<char>) -> Option<Option<Seq<char>>> {
    optional_group(regex_captures(BLOCK_PATTERN@, line))
}

/// The list of variables that a function marker on `line` gives, if there is
/// such a marker.
pub open spec fn function_marker(line: Seq<char>) -> Option<Seq<char>> {
    first_group(regex_captures(FUNCTION_PATTERN@, line))
}

/// The text of a group, empty where the group is missing.
pub open spec fn text_or_empty(text: Option<Seq<char>>) -> Seq<char> {
    match text {
        Some(t) => t,
        None => Seq::empty(),
    }
}

/// The name of the variable that the match `groups` found.
pub open spec fn variable_name(groups: Seq<Option<Seq<char>>>) -> Seq<char> {
    text_or_empty(group(groups, 1))
}

/// The trace of the variable that the match `groups` found; `None` where its
/// suffix spells none.
pub open spec fn variable_trace(groups: Seq<Option<Seq<char>>>) -> Option<Seq<u32>> {
    trace_of(text_or_empty(group(groups, 2)))
}

/// The variables of the first `n` matches, a later one taking the place of
/// an earlier one of the same name; `None` where one of their traces cannot
/// be read.
pub open spec fn variables_in(matches: Seq<Seq<Option<Seq<char>>>>, n: int) -> Option<
    Map<Seq<char>, Seq<u32>>,
>
    decreases n,
{
    if n <= 0 {
        Some(Map::empty())
    } else {
        match (variables_in(matches, n - 1), variable_trace(matches[n - 1])) {
            (Some(vars), Some(trace)) => Some(vars.insert(variable_name(matches[n - 1]), trace)),
            _ => None,
        }
    }
}

/// The variables of all the matches.
pub open spec fn all_variables(matches: Seq<Seq<Option<Seq<char>>>>) -> Option<
    Map<Seq<char>, Seq<u32>>,
> {
    variables_in(matches, matches.len() as int)
}

/// The one entry of a block marker that names no variable: the empty name
/// with the empty trace.
pub open spec fn no_variable() -> Map<Seq<char>, Seq<u32>> {
    Map::<Seq<char>, Seq<u32>>::empty().insert(Seq::empty(), Seq::empty())
}

/// The one entry of a block marker: the last of the variables that were
/// matched, or [`no_variable`] where none was; `None` where the trace of any
/// of them cannot be read.
pub open spec fn last_variable(matches: Seq<Seq<Option<Seq<char>>>>) -> Option<
    Map<Seq<char>, Seq<u32>>,
> {
    if all_variables(matches) is None {
        None
    } else if matches.len() == 0 {
        Some(no_variable())
    } else {
        Some(
            Map::<Seq<char>, Seq<u32>>::empty().insert(
                variable_name(matches.last()),
                variable_trace(matches.last()).unwrap(),
            ),
        )
    }
}

/// The variables that the list `list` of a function marker spells.
pub open spec fn variables_of(list: Seq<char>) -> Option<Map<Seq<char>, Seq<u32>>> {
    all_variables(regex_captures_iter(VARIABLE_PATTERN@, list))
}

/// The entry that a block marker with the payload `payload` gives.
pub open spec fn block_variable_of(payload: Option<Seq<char>>) -> Option<
    Map<Seq<char>, Seq<u32>>,
> {
    match payload {
        Some(text) => last_variable(regex_captures_iter(VARIABLE_PATTERN@, text)),
        None => Some(no_variable()),
    }
}

/// What a marker with variables says.
pub enum Reading {
    /// There is no such marker on the line.
    Absent,
    /// There is one, and a trace in it cannot be read: it breaks off, or a
    /// number in it is no unsigned 32-bit number.
    Malformed,
    /// There is one, with these variables.
    Vars(Map<Seq<char>, Seq<u32>>),
}

/// What a marker that is there says, given whether a trace in it breaks off
/// and the variables that were read from it, if they could be read.
pub open spec fn reading_of(broken: bool, vars: Option<Map<Seq<char>, Seq<u32>>>) -> Reading {
    if broken {
        Reading::Malformed
    } else {
        match vars {
            Some(v) => Reading::Vars(v),
            None => Reading::Malformed,
        }
    }
}

/// What the block marker on `line` says.
pub open spec fn block_reading(line: Seq<char>) -> Reading {
    match block_marker(line) {
        Some(payload) => reading_of(block_broken(line), block_variable_of(payload)),
        None => Reading::Absent,
    }
}

/// What the function marker on `line` says.
pub open spec fn function_reading(line: Seq<char>) -> Reading {
    match function_marker(line) {
        Some(list) => reading_of(function_broken(line), variables_of(list)),
        None => Reading::Absent,
    }
}

/// The variables of a reading that has some.
pub open spec fn vars_of(reading: Reading) -> Option<Map<Seq<char>, Seq<u32>>> {
    match reading {
        Reading::Vars(v) => Some(v),
        _ => None,
    }
}

/// For each line, the name that its constant marker gives.
pub open spec fn const_marks(lines: Seq<Seq<char>>) -> Seq<Option<Seq<char>>> {
    Seq::new(lines.len(), |i: int| const_marker(lines[i]))
}

/// For each line, the variables that its block marker gives.
pub open spec fn block_marks(lines: Seq<Seq<char>>) -> Seq<Option<Map<Seq<char>, Seq<u32>>>> {
    Seq::new(lines.len(), |i: int| vars_of(block_reading(lines[i])))
}

/// For each line, the variables that its function marker gives.
pub open spec fn function_marks(lines: Seq<Seq<char>>) -> Seq<Option<Map<Seq<char>, Seq<u32>>>> {
    Seq::new(lines.len(), |i: int| vars_of(function_reading(lines[i])))
}

/// For each line, the number of the line that a marker on it belongs to: the
/// first line below it on which code starts.
pub open spec fn targets_of(lines: Seq<Seq<char>>) -> Seq<Option<int>> {
    Seq::new(lines.len(), |i: int| next_code_start(lines, i + 1))
}

/// The entries that the marks of the first `n` lines leave: each mark that
/// has a target stands at its target, a later one in place of an earlier one
/// with the same target.
pub open spec fn resolved<V>(marks: Seq<Option<V>>, targets: Seq<Option<int>>, n: int) -> Map<
    usize,
    V,
>
    decreases n,
{
    if n <= 0 {
        Map::empty()
    } else {
        let before = resolved(marks, targets, n - 1);
        match (marks[n - 1], targets[n - 1]) {
            (Some(mark), Some(target)) => before.insert(target as usize, mark),
            _ => before,
        }
    }
}

/// The kind of a marker.
#[derive(Debug, PartialEq, Eq, Clone, Copy, Structural)]
pub enum MarkerKind {
    Const,
    Block,
    Function,
}

/// A marker that was passed over because a trace in it cannot be read.
#[derive(Debug, PartialEq, Eq, Clone, Copy, Structural)]
pub struct SkippedMarker {
    /// The number of the marker's own line, counted from 1.
    pub line: usize,
    pub kind: MarkerKind,
    /// Why the marker was passed over.
    pub error: TraceParseError,
}

/// The note that the marker of kind `kind` on the line at index `i` was
/// passed over.
pub open spec fn skipped_at(i: int, kind: MarkerKind) -> SkippedMarker {
    SkippedMarker { line: (i + 1) as usize, kind, error: TraceParseError::NotANumber }
}

/// The markers that are passed over on the line at index `i`.
pub open spec fn skipped_on(lines: Seq<Seq<char>>, i: int) -> Seq<SkippedMarker> {
    let function = if function_reading(lines[i]) is Malformed {
        seq![skipped_at(i, MarkerKind::Function)]
    } else {
        Seq::empty()
    };
    let block = if block_reading(lines[i]) is Malformed {
        seq![skipped_at(i, MarkerKind::Block)]
    } else {
        Seq::empty()
    };
    function + block
}

/// The markers that are passed over on the first `n` lines.
pub open spec fn skipped_in(lines: Seq<Seq<char>>, n: int) -> Seq<SkippedMarker>
    decreases n,
{
    if n <= 0 {
        Seq::empty()
    } else {
        skipped_in(lines, n - 1) + skipped_on(lines, n - 1)
    }
}

/// The table of one file: for each kind of marker, what the markers of that
/// kind say, by the line they belong to.
pub struct TargetTable {
    pub path: Seq<char>,
    pub consts: Map<usize, Seq<char>>,
    pub blocks: Map<usize, Map<Seq<char>, Seq<u32>>>,
    pub functions: Map<usize, Map<Seq<char>, Seq<u32>>>,
}

/// The table that the first `n` of the lines give.
pub open spec fn table_after(lines: Seq<Seq<char>>, path: Seq<char>, n: int) -> TargetTable {
    TargetTable {
        path,
        consts: resolved(const_marks(lines), targets_of(lines), n),
        blocks: resolved(block_marks(lines), targets_of(lines), n),
        functions: resolved(function_marks(lines), targets_of(lines), n),
    }
}

/// The table of the file at `path` that holds `content`.
pub open spec fn scan_table(content: Seq<char>, path: Seq<char>) -> TargetTable {
    let lines = lines_of(content);
    table_after(lines, path, lines.len() as int)
}

/// The markers in `content` that a scan passes over, in the order of their
/// lines; on one line the function marker comes first.
pub open spec fn skipped_markers(content: Seq<char>) -> Seq<SkippedMarker> {
    let lines = lines_of(content);
    skipped_in(lines, lines.len() as int)
}

/// The names in `map` as sequences of characters.
pub open spec fn names_model(map: Map<usize, String>) -> Map<usize, Seq<char>> {
    Map::new(|k: usize| map.contains_key(k), |k: usize| map[k]@)
}

/// The variables in `map` as mappings.
pub open spec fn vars_model(map: Map<usize, VarTraces>) -> Map<usize, Map<Seq<char>, Seq<u32>>> {
    Map::new(|k: usize| map.contains_key(k), |k: usize| map[k]@)
}

/// The targets of one file.  Each mapping goes from the number of a line of
/// code, counted from 1, to what the marker above that line says.
#[derive(Debug, Default)]
pub struct InstrumentationTargets {
    pub path: String,
    pub targets_const: HashMap<usize, String>,
    pub targets_block: HashMap<usize, VarTraces>,
    pub targets_function: HashMap<usize, VarTraces>,
}

impl View for InstrumentationTargets {
    type V = TargetTable;

    open spec fn view(&self) -> TargetTable {
        TargetTable {
            path: self.path@,
            consts: names_model(self.targets_const@),
            blocks: vars_model(self.targets_block@),
            functions: vars_model(self.targets_function@),
        }
    }
}

/// A marker with what it says.
#[derive(Debug)]
pub enum Marker {
    /// Tags a line that declares a constant, by the constant's name.
    Const { name: String },
    /// Tags a block, with its variable and the variable's trace.
    Block { vars: VarTraces },
    /// Tags a function, with its variables and their traces.
    Function { vars: VarTraces },
}

/// A marker over sequences and mappings.
pub enum MarkerModel {
    Const { name: Seq<char> },
    Block { vars: Map<Seq<char>, Seq<u32>> },
    Function { vars: Map<Seq<char>, Seq<u32>> },
}

impl View for Marker {
    type V = MarkerModel;

    open spec fn view(&self) -> MarkerModel {
        match self {
            Marker::Const { name } => MarkerModel::Const { name: name@ },
            Marker::Block { vars } => MarkerModel::Block { vars: vars@ },
            Marker::Function { vars } => MarkerModel::Function { vars: vars@ },
        }
    }
}

impl Marker {
    /// The kind of this marker.
    pub fn kind(&self) -> (kind: MarkerKind)
        ensures
            kind == (match self@ {
                MarkerModel::Const { .. } => MarkerKind::Const,
                MarkerModel::Block { .. } => MarkerKind::Block,
                MarkerModel::Function { .. } => MarkerKind::Function,
            }),
    {
        match self {
            Marker::Const { .. } => MarkerKind::Const,
            Marker::Block { .. } => MarkerKind::Block,
            Marker::Function { .. } => MarkerKind::Function,
        }
    }
}

/// The table with `marker` at the line `target`, in place of what the
/// mapping of the marker's kind held there; the other two mappings stay.
pub open spec fn with_marker(table: TargetTable, target: usize, marker: MarkerModel) -> TargetTable {
    match marker {
        MarkerModel::Const { name } => TargetTable {
            consts: table.consts.insert(target, name),
            ..table
        },
        MarkerModel::Block { vars } => TargetTable {
            blocks: table.blocks.insert(target, vars),
            ..table
        },
        MarkerModel::Function { vars } => TargetTable {
            functions: table.functions.insert(target, vars),
            ..table
        },
    }
}

/// The table of the file at `path` before any marker is recorded.
pub open spec fn empty_table(path: Seq<char>) -> TargetTable {
    TargetTable { path, consts: Map::empty(), blocks: Map::empty(), functions: Map::empty() }
}

impl InstrumentationTargets {
    /// The table of the file at `path`, with no targets yet.
    pub fn new(path: &str) -> (targets: Self)
        ensures
            targets@ == empty_table(path@),
    {
        let targets = InstrumentationTargets {
            path: path.to_owned(),
            targets_const: HashMap::new(),
            targets_block: HashMap::new(),
            targets_function: HashMap::new(),
        };
        assert(targets@.consts =~= Map::<usize, Seq<char>>::empty());
        assert(targets@.blocks =~= Map::<usize, Map<Seq<char>, Seq<u32>>>::empty());
        assert(targets@.functions =~= Map::<usize, Map<Seq<char>, Seq<u32>>>::empty());
        targets
    }

    /// Records that `marker` belongs to the line `target`.  A marker of the
    /// same kind that was recorded for that line before is lost.
    pub fn record(&mut self, target: usize, marker: Marker)
        ensures
            final(self)@ == with_marker(old(self)@, target, marker@),
    {
        broadcast use vstd::std_specs::hash::group_hash_axioms;

        let ghost before = self@;
        match marker {
            Marker::Const { name } => {
                self.targets_const.insert(target, name);
                assert(self@.consts =~= before.consts.insert(target, name@));
                assert(self@.blocks =~= before.blocks);
                assert(self@.functions =~= before.functions);
            },
            Marker::Block { vars } => {
                self.targets_block.insert(target, vars);
                assert(self@.blocks =~= before.blocks.insert(target, vars@));
                assert(self@.consts =~= before.consts);
                assert(self@.functions =~= before.functions);
            },
            Marker::Function { vars } => {
                self.targets_function.insert(target, vars);
                assert(self@.functions =~= before.functions.insert(target, vars@));
                assert(self@.consts =~= before.consts);
                assert(self@.blocks =~= before.blocks);
            },
        }
    }
}

/// What one line carries: for each kind of marker on it, the marker's raw
/// payload.
#[derive(Debug)]
pub struct LineMarkers {
    /// The name of the constant.
    pub constant: Option<String>,
    /// The variable with its trace, where the block marker names one.
    pub block: Option<Option<String>>,
    /// The list of variables.
    pub function: Option<String>,
    /// Does the trace of the block marker break off?
    pub block_broken: bool,
    /// Does a trace of the function marker break off?
    pub function_broken: bool,
}

/// The outcome of a scan: the table, and the markers that were passed over.
#[derive(Debug)]
pub struct ScanReport {
    pub targets: InstrumentationTargets,
    pub skipped: Vec<SkippedMarker>,
}

/// The text of group `i` of a match.
pub fn group_text(groups: &Vec<Option<String>>, i: usize) -> (text: Option<String>)
    ensures
        text.deep_view() == group(groups.deep_view(), i as int),
{
    if i < groups.len() {
        match &groups[i] {
            Some(t) => Some(t.clone()),
            None => None,
        }
    } else {
        None
    }
}

/// The text of group `i` of a match, empty where the group is missing.
pub fn group_text_or_empty(groups: &Vec<Option<String>>, i: usize) -> (text: String)
    ensures
        text@ == text_or_empty(group(groups.deep_view(), i as int)),
{
    match group_text(groups, i) {
        Some(t) => t,
        None => String::new(),
    }
}

/// Sorts the first matches of the three marker patterns on one line into
/// what the line carries.
pub fn read_markers(
    constant: &Option<Vec<Option<String>>>,
    block: &Option<Vec<Option<String>>>,
    function: &Option<Vec<Option<String>>>,
) -> (found: LineMarkers)
    ensures
        found.constant.deep_view() == first_group(constant.deep_view()),
        found.block.deep_view() == optional_group(block.deep_view()),
        found.function.deep_view() == first_group(function.deep_view()),
        found.block_broken == second_group_taken(block.deep_view()),
        found.function_broken == second_group_taken(function.deep_view()),
{
    LineMarkers {
        constant: match constant {
            Some(groups) => group_text(groups, 1),
            None => None,
        },
        block: match block {
            Some(groups) => Some(group_text(groups, 1)),
            None => None,
        },
        function: match function {
            Some(groups) => group_text(groups, 1),
            None => None,
        },
        block_broken: match block {
            Some(groups) => group_text(groups, 2).is_some(),
            None => false,
        },
        function_broken: match function {
            Some(groups) => group_text(groups, 2).is_some(),
            None => false,
        },
    }
}

/// Once a trace cannot be read, no longer run of matches gives variables.
pub proof fn lemma_variables_stay_unread(matches: Seq<Seq<Option<Seq<char>>>>, n: int, m: int)
    requires
        0 <= n <= m,
        variables_in(matches, n) is None,
    ensures
        variables_in(matches, m) is None,
    decreases m - n,
{
    if n < m {
        lemma_variables_stay_unread(matches, n, m - 1);
    }
}

/// The variables of the matches of the variable pattern in a list.
pub fn collect_variables(matches: &Vec<Vec<Option<String>>>) -> (vars: Result<
    VarTraces,
    TraceParseError,
>)
    ensures
        match vars {
            Ok(v) => all_variables(matches.deep_view()) == Some(v@),
            Err(_) => all_variables(matches.deep_view()) is None,
        },
{
    let mut vars = VarTraces::new();
    let mut i: usize = 0;
    while i < matches.len()
        invariant
            0 <= i <= matches@.len(),
            variables_in(matches.deep_view(), i as int) == Some(vars@),
        decreases matches@.len() - i,
    {
        let name = group_text_or_empty(&matches[i], 1);
        let suffix = group_text_or_empty(&matches[i], 2);
        let suffix_chars = chars_of(suffix.as_str());
        assert(matches.deep_view()[i as int] == matches@[i as int].deep_view());
        match parse_trace(suffix_chars.as_slice()) {
            Ok(trace) => {
                vars = vars.insert(name, trace);
            },
            Err(e) => {
                proof {
                    assert(variables_in(matches.deep_view(), i + 1) is None);
                    lemma_variables_stay_unread(
                        matches.deep_view(),
                        i + 1,
                        matches@.len() as int,
                    );
                }
                return Err(e);
            },
        }
        i += 1;
    }
    Ok(vars)
}

/// The one entry of a block marker, from the matches of the variable pattern
/// in its payload.
pub fn collect_last_variable(matches: &Vec<Vec<Option<String>>>) -> (vars: Result<
    VarTraces,
    TraceParseError,
>)
    ensures
        match vars {
            Ok(v) => last_variable(matches.deep_view()) == Some(v@),
            Err(_) => last_variable(matches.deep_view()) is None,
        },
{
    match collect_variables(matches) {
        Err(e) => Err(e),
        Ok(_) => {
            let n = matches.len();
            if n == 0 {
                Ok(VarTraces::new().insert(String::new(), Vec::new()))
            } else {
                let last = &matches[n - 1];
                let name = group_text_or_empty(last, 1);
                let suffix = group_text_or_empty(last, 2);
                let suffix_chars = chars_of(suffix.as_str());
                assert(matches.deep_view().last() == last.deep_view());
                match parse_trace(suffix_chars.as_slice()) {
                    Ok(trace) => Ok(VarTraces::new().insert(name, trace)),
                    Err(e) => Err(e),
                }
            }
        },
    }
}

/// The first of the four patterns that was not built, given which of the
/// first three were; it is asked only where one of the four was not.
pub open spec fn first_refused(constant: bool, block: bool, function: bool) -> Seq<char> {
    if !constant {
        CONST_PATTERN@
    } else if !block {
        BLOCK_PATTERN@
    } else if !function {
        FUNCTION_PATTERN@
    } else {
        VARIABLE_PATTERN@
    }
}

/// Does the `regex` crate build all four patterns on this machine?
pub open spec fn patterns_build() -> bool {
    &&& regex_builds(CONST_PATTERN@, usize::BITS as nat)
    &&& regex_builds(BLOCK_PATTERN@, usize::BITS as nat)
    &&& regex_builds(FUNCTION_PATTERN@, usize::BITS as nat)
    &&& regex_builds(VARIABLE_PATTERN@, usize::BITS as nat)
}

/// The pattern that the `regex` crate would not build.
#[derive(Debug)]
pub struct PatternError {
    pub pattern: &'static str,
}

/// The scanner: the four patterns, compiled once.
pub struct Instrumentor {
    target_const_regex: Regex,
    target_block_regex: Regex,
    target_function_regex: Regex,
    variables_regex: Regex,
}

impl Instrumentor {
    #[verifier::type_invariant]
    spec fn inv(&self) -> bool {
        &&& regex_source(self.target_const_regex) == CONST_PATTERN@
        &&& regex_source(self.target_block_regex) == BLOCK_PATTERN@
        &&& regex_source(self.target_function_regex) == FUNCTION_PATTERN@
        &&& regex_source(self.variables_regex) == VARIABLE_PATTERN@
        &&& regex_plain(self.target_const_regex)
        &&& regex_plain(self.target_block_regex)
        &&& regex_plain(self.target_function_regex)
        &&& regex_plain(self.variables_regex)
    }

    /// Compiles the four patterns.  Succeeds exactly where the `regex` crate
    /// builds all four, and else fails with the first of them that it does
    /// not build.
    pub fn new() -> (made: Result<Self, PatternError>)
        ensures
            made is Ok <==> patterns_build(),
            made matches Err(e) ==> e.pattern@ == first_refused(
                regex_builds(CONST_PATTERN@, usize::BITS as nat),
                regex_builds(BLOCK_PATTERN@, usize::BITS as nat),
                regex_builds(FUNCTION_PATTERN@, usize::BITS as nat),
            ),
    {
        Self::assemble(
            compile(CONST_PATTERN),
            compile(BLOCK_PATTERN),
            compile(FUNCTION_PATTERN),
            compile(VARIABLE_PATTERN),
        )
    }

    /// The scanner that holds the four expressions, where all four were
    /// built; else the error that names the first pattern, in the order
    /// constant, block, function, variable, that was not built.
    pub fn assemble(
        constant: Result<Regex, regex::Error>,
        block: Result<Regex, regex::Error>,
        function: Result<Regex, regex::Error>,
        variable: Result<Regex, regex::Error>,
    ) -> (made: Result<Self, PatternError>)
        requires
            constant matches Ok(re) ==> regex_source(re) == CONST_PATTERN@ && regex_plain(re),
            block matches Ok(re) ==> regex_source(re) == BLOCK_PATTERN@ && regex_plain(re),
            function matches Ok(re) ==> regex_source(re) == FUNCTION_PATTERN@ && regex_plain(re),
            variable matches Ok(re) ==> regex_source(re) == VARIABLE_PATTERN@ && regex_plain(re),
        ensures
            made is Ok <==> constant is Ok && block is Ok && function is Ok && variable is Ok,
            made matches Err(e) ==> e.pattern@ == first_refused(
                constant is Ok,
                block is Ok,
                function is Ok,
            ),
    {
        let target_const_regex = match constant {
            Ok(re) => re,
            Err(_) => {
                return Err(PatternError { pattern: CONST_PATTERN });
            },
        };
        let target_block_regex = match block {
            Ok(re) => re,
            Err(_) => {
                return Err(PatternError { pattern: BLOCK_PATTERN });
            },
        };
        let target_function_regex = match function {
            Ok(re) => re,
            Err(_) => {
                return Err(PatternError { pattern: FUNCTION_PATTERN });
            },
        };
        let variables_regex = match variable {
            Ok(re) => re,
            Err(_) => {
                return Err(PatternError { pattern: VARIABLE_PATTERN });
            },
        };
        Ok(
            Instrumentor {
                target_const_regex,
                target_block_regex,
                target_function_regex,
                variables_regex,
            },
        )
    }

    /// Does code start on `line`?
    pub fn is_block_start(&self, line: &str) -> (starts: bool)
        ensures
            starts == is_code_start(line@),
    {
        let chars = line.chars();
        for c in it: chars
            invariant
                it.seq() == line@,
                forall|k: int| 0 <= k < it.index() ==> is_white_space(line@[k]),
        {
            if !white_space(c) {
                proof {
                    lemma_first_ink_skips(line@, 0, it.index() as int);
                }
                return ascii_letter(c) || c == '}';
            }
        }
        proof {
            lemma_first_ink_skips(line@, 0, line@.len() as int);
        }
        false
    }

    /// The number, counted from 1, of the first line at or after index
    /// `start_line_num` on which code starts.
    pub fn find_next_block_start(&self, lines: &[&str], start_line_num: usize) -> (found: Option<
        usize,
    >)
        ensures
            match found {
                Some(number) => next_code_start(text_views(lines@), start_line_num as int) == Some(
                    number as int,
                ),
                None => next_code_start(text_views(lines@), start_line_num as int) is None,
            },
    {
        let mut next_line_num = start_line_num;
        while next_line_num < lines.len()
            invariant
                start_line_num <= next_line_num,
                next_code_start(text_views(lines@), start_line_num as int) == next_code_start(
                    text_views(lines@),
                    next_line_num as int,
                ),
            decreases lines@.len() - next_line_num,
        {
            if self.is_block_start(lines[next_line_num]) {
                return Some(next_line_num + 1);
            }
            next_line_num += 1;
        }
        None
    }
    /// What `line` carries: the raw payload of each kind of marker on it.
    pub fn classify(&self, line: &str) -> (found: LineMarkers)
        ensures
            found.constant.deep_view() == const_marker(line@),
            found.block.deep_view() == block_marker(line@),
            found.function.deep_view() == function_marker(line@),
            found.block_broken == block_broken(line@),
            found.function_broken == function_broken(line@),
    {
        proof {
            use_type_invariant(self);
        }
        let constant = captures(&self.target_const_regex, line);
        let block = captures(&self.target_block_regex, line);
        let function = captures(&self.target_function_regex, line);
        read_markers(&constant, &block, &function)
    }

    /// The variables that the list of a function marker spells.
    pub fn parse_variables(&self, list: &str) -> (vars: Result<VarTraces, TraceParseError>)
        ensures
            match vars {
                Ok(v) => variables_of(list@) == Some(v@),
                Err(_) => variables_of(list@) is None,
            },
    {
        proof {
            use_type_invariant(self);
        }
        let matches = captures_iter(&self.variables_regex, list);
        collect_variables(&matches)
    }

    /// The entry that a block marker gives: its variable with its trace, or
    /// the empty name with the empty trace where it names none.
    pub fn parse_block_variable(&self, payload: &Option<String>) -> (vars: Result<
        VarTraces,
        TraceParseError,
    >)
        ensures
            match vars {
                Ok(v) => block_variable_of(payload.deep_view()) == Some(v@),
                Err(_) => block_variable_of(payload.deep_view()) is None,
            },
    {
        proof {
            use_type_invariant(self);
        }
        match payload {
            Some(text) => {
                let matches = captures_iter(&self.variables_regex, text.as_str());
                collect_last_variable(&matches)
            },
            None => Ok(VarTraces::new().insert(String::new(), Vec::new())),
        }
    }

    /// Scans one file: the table of its targets, and the markers that were
    /// passed over because a trace in them cannot be read.
    pub fn scan(&self, content: &str, path: &str) -> (report: ScanReport)
        ensures
            report.targets@ == scan_table(content@, path@),
            report.skipped@ == skipped_markers(content@),
    {
        let chars = chars_of(content);
        let char_lines = split_lines(chars.as_slice());
        let texts = line_strings(&char_lines);
        let lines = borrow_lines(&texts);
        let ghost views = lines_of(content@);
        assert(text_views(lines@) =~= views);
        let mut targets = InstrumentationTargets::new(path);
        let mut skipped: Vec<SkippedMarker> = Vec::new();
        assert(targets@.consts =~= resolved(const_marks(views), targets_of(views), 0));
        assert(targets@.blocks =~= resolved(block_marks(views), targets_of(views), 0));
        assert(targets@.functions =~= resolved(function_marks(views), targets_of(views), 0));
        let mut i: usize = 0;
        while i < lines.len()
            invariant
                0 <= i <= lines@.len(),
                text_views(lines@) == views,
                targets@ == table_after(views, path@, i as int),
                skipped@ == skipped_in(views, i as int),
            decreases lines@.len() - i,
        {
            let line = lines[i];
            assert(views[i as int] == line@);
            let ghost target = next_code_start(views, i + 1);
            assert(targets_of(views)[i as int] == target);
            let found = self.classify(line);
            let ghost before = targets@;
            match found.function {
                Some(list) => {
                    let read = if found.function_broken {
                        Err(TraceParseError::NotANumber)
                    } else {
                        self.parse_variables(list.as_str())
                    };
                    match read {
                        Ok(vars) => {
                            match self.find_next_block_start(lines.as_slice(), i + 1) {
                                Some(number) => {
                                    targets.record(number, Marker::Function { vars });
                                },
                                None => {},
                            }
                        },
                        Err(error) => {
                            skipped.push(
                                SkippedMarker { line: i + 1, kind: MarkerKind::Function, error },
                            );
                        },
                    }
                },
                None => {},
            }
            assert(targets@.consts == before.consts);
            assert(targets@.blocks == before.blocks);
            assert(targets@.functions == resolved(
                function_marks(views),
                targets_of(views),
                i + 1,
            ));
            match found.constant {
                Some(name) => {
                    match self.find_next_block_start(lines.as_slice(), i + 1) {
                        Some(number) => {
                            targets.record(number, Marker::Const { name });
                        },
                        None => {},
                    }
                },
                None => {},
            }
            assert(targets@.consts == resolved(const_marks(views), targets_of(views), i + 1));
            let ghost skipped_so_far = skipped@;
            match found.block {
                Some(payload) => {
                    let read = if found.block_broken {
                        Err(TraceParseError::NotANumber)
                    } else {
                        self.parse_block_variable(&payload)
                    };
                    match read {
                        Ok(vars) => {
                            match self.find_next_block_start(lines.as_slice(), i + 1) {
                                Some(number) => {
                                    targets.record(number, Marker::Block { vars });
                                },
                                None => {},
                            }
                        },
                        Err(error) => {
                            skipped.push(
                                SkippedMarker { line: i + 1, kind: MarkerKind::Block, error },
                            );
                        },
                    }
                },
                None => {},
            }
            assert(targets@.blocks == resolved(block_marks(views), targets_of(views), i + 1));
            assert(skipped@ =~= skipped_in(views, i as int) + skipped_on(views, i as int));
            i += 1;
        }
        ScanReport { targets, skipped }
    }

    /// The table of the targets of one file.  A marker with a trace that
    /// cannot be read leaves no entry.
    pub fn get_targets_single(&self, content: &str, path: &str) -> (targets:
        InstrumentationTargets)
        ensures
            targets@ == scan_table(content@, path@),
    {
        self.scan(content, path).targets
    }

    /// Scans the files in `files`, each a content with its path: for each
    /// file, in the order of the files, its table and the markers in it that
    /// were passed over.  A marker that is passed over costs no other marker
    /// its entry, in its file or in another.
    pub fn scan_files(&self, files: &Vec<(String, String)>) -> (reports: Vec<ScanReport>)
        ensures
            reports@.len() == files@.len(),
            forall|i: int|
                0 <= i < files@.len() ==> {
                    &&& (#[trigger] reports@[i]).targets@ == scan_table(
                        files@[i].0@,
                        files@[i].1@,
                    )
                    &&& reports@[i].skipped@ == skipped_markers(files@[i].0@)
                },
    {
        let mut reports: Vec<ScanReport> = Vec::new();
        let mut i: usize = 0;
        while i < files.len()
            invariant
                0 <= i <= files@.len(),
                reports@.len() == i,
                forall|k: int|
                    0 <= k < i ==> {
                        &&& (#[trigger] reports@[k]).targets@ == scan_table(
                            files@[k].0@,
                            files@[k].1@,
                        )
                        &&& reports@[k].skipped@ == skipped_markers(files@[k].0@)
                    },
            decreases files@.len() - i,
        {
            let report = self.scan(files[i].0.as_str(), files[i].1.as_str());
            reports.push(report);
            i += 1;
        }
        reports
    }

    /// The tables of the files in `files`, each a content with its path, in
    /// the order of the files.  A marker with a trace that cannot be read
    /// leaves no entry; [`Instrumentor::scan_files`] also tells which markers
    /// those are.
    pub fn get_targets(&self, files: Vec<(String, String)>) -> (tables: Vec<
        InstrumentationTargets,
    >)
        ensures
            tables@.len() == files@.len(),
            forall|i: int|
                0 <= i < files@.len() ==> (#[trigger] tables@[i])@ == scan_table(
                    files@[i].0@,
                    files@[i].1@,
                ),
    {
        let mut tables: Vec<InstrumentationTargets> = Vec::new();
        let mut i: usize = 0;
        while i < files.len()
            invariant
                0 <= i <= files@.len(),
                tables@.len() == i,
                forall|k: int|
                    0 <= k < i ==> (#[trigger] tables@[k])@ == scan_table(
                        files@[k].0@,
                        files@[k].1@,
                    ),
            decreases files@.len() - i,
        {
            let table = self.get_targets_single(files[i].0.as_str(), files[i].1.as_str());
            tables.push(table);
            i += 1;
        }
        tables
    }
}

/// The lines as strings.
fn line_strings(lines: &Vec<Vec<char>>) -> (texts: Vec<String>)
    ensures
        texts@.len() == lines@.len(),
        forall|i: int| 0 <= i < lines@.len() ==> (#[trigger] texts@[i])@ == lines@[i]@,
{
    let mut texts: Vec<String> = Vec::new();
    let mut i: usize = 0;
    while i < lines.len()
        invariant
            0 <= i <= lines@.len(),
            texts@.len() == i,
            forall|k: int| 0 <= k < i ==> (#[trigger] texts@[k])@ == lines@[k]@,
        decreases lines@.len() - i,
    {
        texts.push(string_of(lines[i].as_slice()));
        i += 1;
    }
    texts
}

/// The strings as string slices.
fn borrow_lines(texts: &Vec<String>) -> (lines: Vec<&str>)
    ensures
        lines@.len() == texts@.len(),
        forall|i: int| 0 <= i < texts@.len() ==> (#[trigger] lines@[i])@ == texts@[i]@,
{
    let mut lines: Vec<&str> = Vec::new();
    let mut i: usize = 0;
    while i < texts.len()
        invariant
            0 <= i <= texts@.len(),
            lines@.len() == i,
            forall|k: int| 0 <= k < i ==> (#[trigger] lines@[k])@ == texts@[k]@,
        decreases texts@.len() - i,
    {
        lines.push(texts[i].as_str());
        i += 1;
    }
    lines
}

/// Does the mark of line `j` stand at `key`?
pub open spec fn marks_at<V>(marks: Seq<Option<V>>, targets: Seq<Option<int>>, j: int, key: usize) -> bool {
    marks[j] is Some && targets[j] is Some && targets[j].unwrap() as usize == key
}

/// A key is taken exactly where the mark of one of the first `n` lines
/// stands at it.
pub proof fn lemma_resolved_keys<V>(
    marks: Seq<Option<V>>,
    targets: Seq<Option<int>>,
    n: int,
    key: usize,
)
    requires
        0 <= n,
    ensures
        resolved(marks, targets, n).contains_key(key) <==> exists|j: int|
            0 <= j < n && marks_at(marks, targets, j, key),
    decreases n,
{
    if n > 0 {
        lemma_resolved_keys(marks, targets, n - 1, key);
        if resolved(marks, targets, n).contains_key(key) {
            if marks_at(marks, targets, n - 1, key) {
            } else {
                assert(resolved(marks, targets, n - 1).contains_key(key));
                let j = choose|j: int| 0 <= j < n - 1 && marks_at(marks, targets, j, key);
                assert(0 <= j < n && marks_at(marks, targets, j, key));
            }
        }
        if exists|j: int| 0 <= j < n && marks_at(marks, targets, j, key) {
            let j = choose|j: int| 0 <= j < n && marks_at(marks, targets, j, key);
            if j < n - 1 {
                assert(0 <= j < n - 1 && marks_at(marks, targets, j, key));
            }
        }
    }
}

/// Where several marks stand at one key, the entry is that of the last.
pub proof fn lemma_resolved_last_wins<V>(
    marks: Seq<Option<V>>,
    targets: Seq<Option<int>>,
    n: int,
    j: int,
    key: usize,
)
    requires
        0 <= j < n,
        marks_at(marks, targets, j, key),
        forall|later: int| j < later < n ==> !marks_at(marks, targets, later, key),
    ensures
        resolved(marks, targets, n).contains_key(key),
        resolved(marks, targets, n)[key] == marks[j].unwrap(),
    decreases n,
{
    if j < n - 1 {
        lemma_resolved_last_wins(marks, targets, n - 1, j, key);
        assert(!marks_at(marks, targets, n - 1, key));
    }
}

/// Every marker with code below it has an entry: where code starts on some
/// line below line `j`, each marker on line `j` whose traces can be read
/// stands in the table of its kind at the number of the first such line.
pub proof fn lemma_marker_has_entry(content: Seq<char>, path: Seq<char>, j: int)
    requires
        lines_of(content).len() <= usize::MAX,
        0 <= j < lines_of(content).len(),
        next_code_start(lines_of(content), j + 1) is Some,
    ensures
        ({
            let lines = lines_of(content);
            let table = scan_table(content, path);
            let target = next_code_start(lines, j + 1).unwrap() as usize;
            &&& j + 1 < target <= lines.len()
            &&& is_code_start(lines[target - 1])
            &&& forall|k: int| j + 1 <= k < target - 1 ==> !is_code_start(lines[k])
            &&& const_marker(lines[j]) is Some ==> table.consts.contains_key(target)
            &&& block_reading(lines[j]) is Vars ==> table.blocks.contains_key(target)
            &&& function_reading(lines[j]) is Vars ==> table.functions.contains_key(target)
        }),
{
    let lines = lines_of(content);
    let n = lines.len() as int;
    let target = next_code_start(lines, j + 1).unwrap() as usize;
    lemma_next_code_start(lines, j + 1);
    lemma_resolved_keys(const_marks(lines), targets_of(lines), n, target);
    lemma_resolved_keys(block_marks(lines), targets_of(lines), n, target);
    lemma_resolved_keys(function_marks(lines), targets_of(lines), n, target);
    if const_marker(lines[j]) is Some {
        assert(marks_at(const_marks(lines), targets_of(lines), j, target));
    }
    if block_reading(lines[j]) is Vars {
        assert(marks_at(block_marks(lines), targets_of(lines), j, target));
    }
    if function_reading(lines[j]) is Vars {
        assert(marks_at(function_marks(lines), targets_of(lines), j, target));
    }
}

/// Every entry stems from a marker: a key of a table is the number of the
/// first line of code below some line that carries a marker of that table's
/// kind.  So a marker with no code below it leaves no entry anywhere.
pub proof fn lemma_entry_has_marker(content: Seq<char>, path: Seq<char>, key: usize)
    requires
        lines_of(content).len() <= usize::MAX,
    ensures
        ({
            let lines = lines_of(content);
            let table = scan_table(content, path);
            &&& table.consts.contains_key(key) ==> exists|j: int|
                0 <= j < lines.len() && const_marker(lines[j]) is Some && next_code_start(
                    lines,
                    j + 1,
                ) == Some(key as int)
            &&& table.blocks.contains_key(key) ==> exists|j: int|
                0 <= j < lines.len() && block_reading(lines[j]) is Vars && next_code_start(
                    lines,
                    j + 1,
                ) == Some(key as int)
            &&& table.functions.contains_key(key) ==> exists|j: int|
                0 <= j < lines.len() && function_reading(lines[j]) is Vars && next_code_start(
                    lines,
                    j + 1,
                ) == Some(key as int)
        }),
{
    let lines = lines_of(content);
    let n = lines.len() as int;
    let table = scan_table(content, path);
    lemma_resolved_keys(const_marks(lines), targets_of(lines), n, key);
    lemma_resolved_keys(block_marks(lines), targets_of(lines), n, key);
    lemma_resolved_keys(function_marks(lines), targets_of(lines), n, key);
    if table.consts.contains_key(key) {
        let j = choose|j: int| 0 <= j < n && marks_at(const_marks(lines), targets_of(lines), j, key);
        lemma_next_code_start(lines, j + 1);
        assert(const_marker(lines[j]) is Some && next_code_start(lines, j + 1) == Some(
            key as int,
        ));
    }
    if table.blocks.contains_key(key) {
        let j = choose|j: int| 0 <= j < n && marks_at(block_marks(lines), targets_of(lines), j, key);
        lemma_next_code_start(lines, j + 1);
        assert(block_reading(lines[j]) is Vars && next_code_start(lines, j + 1) == Some(
            key as int,
        ));
    }
    if table.functions.contains_key(key) {
        let j = choose|j: int|
            0 <= j < n && marks_at(function_marks(lines), targets_of(lines), j, key);
        lemma_next_code_start(lines, j + 1);
        assert(function_reading(lines[j]) is Vars && next_code_start(lines, j + 1) == Some(
            key as int,
        ));
    }
}

/// Markers of one kind that belong to the same line of code collapse into
/// one entry, and it says what the last of them says.
pub proof fn lemma_last_marker_wins(content: Seq<char>, path: Seq<char>, j: int)
    requires
        lines_of(content).len() <= usize::MAX,
        0 <= j < lines_of(content).len(),
        next_code_start(lines_of(content), j + 1) is Some,
    ensures
        ({
            let lines = lines_of(content);
            let table = scan_table(content, path);
            let target = next_code_start(lines, j + 1).unwrap();
            &&& const_marker(lines[j]) is Some && (forall|later: int|
                j < later < target - 1 ==> const_marker(lines[later]) is None)
                ==> table.consts[target as usize] == const_marker(lines[j]).unwrap()
            &&& block_reading(lines[j]) is Vars && (forall|later: int|
                j < later < target - 1 ==> !(block_reading(lines[later]) is Vars))
                ==> table.blocks[target as usize] == block_reading(lines[j])->Vars_0
            &&& function_reading(lines[j]) is Vars && (forall|later: int|
                j < later < target - 1 ==> !(function_reading(lines[later]) is Vars))
                ==> table.functions[target as usize] == function_reading(lines[j])->Vars_0
        }),
{
    let lines = lines_of(content);
    let n = lines.len() as int;
    let target = next_code_start(lines, j + 1).unwrap();
    let key = target as usize;
    lemma_next_code_start(lines, j + 1);
    assert forall|later: int| target - 1 <= later < n implies targets_of(lines)[later]
        != Some(target) by {
        lemma_next_code_start(lines, later + 1);
    }
    assert forall|later: int| 0 <= later < n && targets_of(lines)[later] is Some implies 0
        < #[trigger] targets_of(lines)[later].unwrap() <= n by {
        lemma_next_code_start(lines, later + 1);
    }
    if const_marker(lines[j]) is Some && (forall|later: int|
        j < later < target - 1 ==> const_marker(lines[later]) is None) {
        lemma_resolved_last_wins(const_marks(lines), targets_of(lines), n, j, key);
    }
    if block_reading(lines[j]) is Vars && (forall|later: int|
        j < later < target - 1 ==> !(block_reading(lines[later]) is Vars)) {
        lemma_resolved_last_wins(block_marks(lines), targets_of(lines), n, j, key);
    }
    if function_reading(lines[j]) is Vars && (forall|later: int|
        j < later < target - 1 ==> !(function_reading(lines[later]) is Vars)) {
        lemma_resolved_last_wins(function_marks(lines), targets_of(lines), n, j, key);
    }
}

/// A line of code that a search names is no blank line and no comment: it
/// starts, behind white space, with an ASCII letter or a closing brace.
pub proof fn lemma_target_is_code(lines: Seq<Seq<char>>, from: int)
    requires
        0 <= from,
        next_code_start(lines, from) is Some,
    ensures
        ({
            let line = lines[next_code_start(lines, from).unwrap() - 1];
            let k = first_ink(line, 0);
            &&& 0 <= k < line.len()
            &&& forall|j: int| 0 <= j < k ==> is_white_space(line[j])
            &&& is_ascii_letter(line[k]) || line[k] == '}'
            &&& line[k] != '/' && line[k] != '*' && line[k] != '{'
        }),
{
    lemma_next_code_start(lines, from);
    let line = lines[next_code_start(lines, from).unwrap() - 1];
    lemma_first_ink(line, 0);
}

/// Two scans of the same content under the same path give the same table.
pub proof fn lemma_scan_is_repeatable(
    first: InstrumentationTargets,
    second: InstrumentationTargets,
    content: Seq<char>,
    path: Seq<char>,
)
    requires
        first@ == scan_table(content, path),
        second@ == scan_table(content, path),
    ensures
        first@ == second@,
        first.path@ == second.path@,
        names_model(first.targets_const@) == names_model(second.targets_const@),
        vars_model(first.targets_block@) == vars_model(second.targets_block@),
        vars_model(first.targets_function@) == vars_model(second.targets_function@),
{
}

/// Is the marker of kind `kind` on the line at index `j` one whose trace
/// cannot be read?  A constant marker has no trace.
pub open spec fn is_unreadable(lines: Seq<Seq<char>>, j: int, kind: MarkerKind) -> bool {
    match kind {
        MarkerKind::Const => false,
        MarkerKind::Block => block_reading(lines[j]) is Malformed,
        MarkerKind::Function => function_reading(lines[j]) is Malformed,
    }
}

/// Among the first `n` lines, the markers that are passed over are those
/// whose trace cannot be read.
pub proof fn lemma_skipped_in(lines: Seq<Seq<char>>, n: int, j: int, kind: MarkerKind)
    requires
        0 <= n <= lines.len() <= usize::MAX,
        0 <= j < lines.len(),
    ensures
        skipped_in(lines, n).contains(skipped_at(j, kind)) <==> j < n && is_unreadable(
            lines,
            j,
            kind,
        ),
    decreases n,
{
    if n > 0 {
        lemma_skipped_in(lines, n - 1, j, kind);
        let before = skipped_in(lines, n - 1);
        let here = skipped_on(lines, n - 1);
        let all = skipped_in(lines, n);
        let note = skipped_at(j, kind);
        if all.contains(note) {
            let k = choose|k: int| 0 <= k < all.len() && all[k] == note;
            if k < before.len() {
                assert(before[k] == note);
            } else {
                assert(here[k - before.len()] == note);
                assert(j == n - 1);
            }
        }
        if j < n && is_unreadable(lines, j, kind) {
            if j < n - 1 {
                let k = choose|k: int| 0 <= k < before.len() && before[k] == note;
                assert(all[k] == note);
            } else if kind == MarkerKind::Function {
                assert(here[0] == note);
                assert(all[before.len() as int] == note);
            } else {
                assert(here[here.len() - 1] == note);
                assert(all[all.len() - 1] == note);
            }
        }
    }
}

/// A scan passes over exactly the markers whose trace cannot be read, each
/// noted with its own line and kind, and stores nothing for them: whatever
/// stands in a table stems from a marker that could be read.  So a marker
/// that is passed over costs no other marker its entry.
pub proof fn lemma_unreadable_markers_are_skipped(
    content: Seq<char>,
    path: Seq<char>,
    j: int,
    kind: MarkerKind,
)
    requires
        lines_of(content).len() <= usize::MAX,
        0 <= j < lines_of(content).len(),
    ensures
        skipped_markers(content).contains(skipped_at(j, kind)) <==> is_unreadable(
            lines_of(content),
            j,
            kind,
        ),
        is_unreadable(lines_of(content), j, MarkerKind::Block) ==> block_marks(
            lines_of(content),
        )[j] is None,
        is_unreadable(lines_of(content), j, MarkerKind::Function) ==> function_marks(
            lines_of(content),
        )[j] is None,
{
    let lines = lines_of(content);
    lemma_skipped_in(lines, lines.len() as int, j, kind);
}

} // verus!
