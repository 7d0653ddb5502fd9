//! Variables and their traces.
//!
//! A trace is the run of numbers that follows a variable's name in a marker,
//! each behind an arrow: `r->19->4->5` names `r` with the trace `[19, 4, 5]`.
//! [`VarTraces`] maps the variables of one marker to their traces.
use crate::text::{copy_range, decimal_u32, parse_u32, same_text};
use vstd::prelude::*;

verus! {

/// Does an arrow, `->`, start at index `i` of `text`?
pub open spec fn arrow_at(text: Seq<char>, i: int) -> bool {
    0 <= i && i + 1 < text.len() && text[i] == '-' && text[i + 1] == '>'
}

/// The first index at or after `from` at which an arrow starts, or the length
/// of `text` where there is none.
pub open spec fn next_arrow(text: Seq<char>, from: int) -> int
    decreases text.len() - from,
{
    if from < 0 || from >= text.len() {
        text.len() as int
    } else if arrow_at(text, from) {
        from
    } else {
        next_arrow(text, from + 1)
    }
}

/// `number` in front of the numbers `rest`, where both are there.
pub open spec fn number_then(number: Option<u32>, rest: Option<Seq<u32>>) -> Option<Seq<u32>> {
    match (number, rest) {
        (Some(n), Some(r)) => Some(seq![n] + r),
        _ => None,
    }
}

/// The numbers in `suffix` from index `start` on: the text is cut at every
/// arrow, empty pieces are passed over, and each other piece is read as an
/// unsigned 32-bit number.  `None` where a piece is no such number.
pub open spec fn trace_from(suffix: Seq<char>, start: int) -> Option<Seq<u32>>
    decreases suffix.len() - start,
{
    if start < 0 || start >= suffix.len() {
        Some(Seq::empty())
    } else {
        let end = next_arrow(suffix, start);
        if end < start || end > suffix.len() {
            None
        } else {
            let rest = if arrow_at(suffix, end) {
                trace_from(suffix, end + 2)
            } else {
                Some(Seq::empty())
            };
            if end == start {
                rest
            } else {
                number_then(decimal_u32(suffix.subrange(start, end)), rest)
            }
        }
    }
}

/// The trace that the suffix of a variable spells, as in `->19->4->5`.
pub open spec fn trace_of(suffix: Seq<char>) -> Option<Seq<u32>> {
    trace_from(suffix, 0)
}

/// The numbers `done` in front of the numbers `rest`, where `rest` is there.
pub open spec fn numbers_then(done: Seq<u32>, rest: Option<Seq<u32>>) -> Option<Seq<u32>> {
    match rest {
        Some(r) => Some(done + r),
        None => None,
    }
}

/// A stretch in which no arrow starts does not move the next arrow.
pub proof fn lemma_next_arrow_skips(text: Seq<char>, from: int, to: int)
    requires
        0 <= from <= to <= text.len(),
        forall|k: int| from <= k < to ==> !arrow_at(text, k),
    ensures
        next_arrow(text, from) == next_arrow(text, to),
    decreases to - from,
{
    if from < to {
        lemma_next_arrow_skips(text, from + 1, to);
    }
}

/// Why a trace could not be read.
#[derive(Debug, PartialEq, Eq, Clone, Copy, Structural)]
pub enum TraceParseError {
    /// What follows an arrow is no unsigned 32-bit number: it is no number
    /// at all, or one that is out of range.
    NotANumber,
}

/// Reads the trace that `suffix` spells.
pub fn parse_trace(suffix: &[char]) -> (trace: Result<Vec<u32>, TraceParseError>)
    ensures
        match trace {
            Ok(numbers) => trace_of(suffix@) == Some(numbers@),
            Err(_) => trace_of(suffix@) is None,
        },
{
    let n = suffix.len();
    let mut numbers: Vec<u32> = Vec::new();
    let mut start: usize = 0;
    while start < n
        invariant
            n == suffix@.len(),
            0 <= start <= n,
            trace_of(suffix@) == numbers_then(numbers@, trace_from(suffix@, start as int)),
        decreases n - start,
    {
        let mut end: usize = start;
        while end < n && !(end + 1 < n && suffix[end] == '-' && suffix[end + 1] == '>')
            invariant
                n == suffix@.len(),
                start <= end <= n,
                forall|k: int| start <= k < end ==> !arrow_at(suffix@, k),
            decreases n - end,
        {
            end += 1;
        }
        proof {
            lemma_next_arrow_skips(suffix@, start as int, end as int);
            assert(next_arrow(suffix@, start as int) == end);
        }
        let ghost rest = if arrow_at(suffix@, end as int) {
            trace_from(suffix@, end + 2)
        } else {
            Some(Seq::<u32>::empty())
        };
        if start < end {
            let piece = copy_range(suffix, start, end);
            match parse_u32(piece.as_slice()) {
                Some(number) => {
                    proof {
                        assert(trace_from(suffix@, start as int) == number_then(
                            Some(number),
                            rest,
                        ));
                        if rest is Some {
                            assert(numbers@ + (seq![number] + rest.unwrap()) == numbers@.push(
                                number,
                            ) + rest.unwrap());
                        }
                    }
                    numbers.push(number);
                },
                None => {
                    return Err(TraceParseError::NotANumber);
                },
            }
        }
        if end < n {
            start = end + 2;
        } else {
            start = n;
        }
    }
    assert(numbers@ + Seq::<u32>::empty() == numbers@);
    Ok(numbers)
}

/// The variables of one marker, each with its trace.  No name occurs twice:
/// a later trace for a name takes the place of the earlier one.
#[derive(Debug)]
pub struct VarTraces {
    names: Vec<String>,
    traces: Vec<Vec<u32>>,
}

/// The names in `names` as sequences of characters.
pub open spec fn name_views(names: Seq<String>) -> Seq<Seq<char>> {
    names.map_values(|name: String| name@)
}

impl View for VarTraces {
    type V = Map<Seq<char>, Seq<u32>>;

    closed spec fn view(&self) -> Map<Seq<char>, Seq<u32>> {
        Map::new(
            |name: Seq<char>| name_views(self.names@).contains(name),
            |name: Seq<char>| self.traces@[name_views(self.names@).index_of(name)]@,
        )
    }
}

impl VarTraces {
    #[verifier::type_invariant]
    spec fn inv(&self) -> bool {
        &&& self.names@.len() == self.traces@.len()
        &&& name_views(self.names@).no_duplicates()
    }

    /// The names in the order in which they were first given.
    pub closed spec fn spec_names(&self) -> Seq<Seq<char>> {
        name_views(self.names@)
    }

    /// No variables.
    pub fn new() -> (vars: Self)
        ensures
            vars@ == Map::<Seq<char>, Seq<u32>>::empty(),
            vars.spec_names() == Seq::<Seq<char>>::empty(),
    {
        let vars = VarTraces { names: Vec::new(), traces: Vec::new() };
        assert(vars@ =~= Map::<Seq<char>, Seq<u32>>::empty());
        assert(vars.spec_names() =~= Seq::<Seq<char>>::empty());
        vars
    }

    /// How many variables there are.
    pub fn len(&self) -> (n: usize)
        ensures
            n == self.spec_names().len(),
            n == self@.len(),
            self@.dom().finite(),
            self.spec_names().no_duplicates(),
            self@.dom() == self.spec_names().to_set(),
    {
        proof {
            use_type_invariant(self);
            let names = name_views(self.names@);
            assert(self@.dom() =~= names.to_set());
            names.unique_seq_to_set();
        }
        self.names.len()
    }

    /// The name at place `i`.
    pub fn name(&self, i: usize) -> (name: &String)
        requires
            i < self.spec_names().len(),
        ensures
            name@ == self.spec_names()[i as int],
    {
        &self.names[i]
    }

    /// The trace of the variable at place `i`.
    pub fn trace(&self, i: usize) -> (trace: &Vec<u32>)
        requires
            i < self.spec_names().len(),
        ensures
            self@.contains_key(self.spec_names()[i as int]),
            trace@ == self@[self.spec_names()[i as int]],
    {
        proof {
            use_type_invariant(self);
            lemma_index_of_unique(name_views(self.names@), i as int);
        }
        &self.traces[i]
    }

    /// The place of `name`, if it is a variable.
    fn position(&self, name: &str) -> (at: Option<usize>)
        ensures
            match at {
                Some(i) => i < self.names@.len() && self.names@[i as int]@ == name@,
                None => !name_views(self.names@).contains(name@),
            },
    {
        let mut i: usize = 0;
        while i < self.names.len()
            invariant
                0 <= i <= self.names@.len(),
                forall|k: int| 0 <= k < i ==> self.names@[k]@ != name@,
            decreases self.names@.len() - i,
        {
            if same_text(self.names[i].as_str(), name) {
                return Some(i);
            }
            i += 1;
        }
        None
    }

    /// The trace of the variable `name`, if there is one.
    pub fn get(&self, name: &str) -> (trace: Option<&Vec<u32>>)
        ensures
            match trace {
                Some(numbers) => self@.contains_key(name@) && numbers@ == self@[name@],
                None => !self@.contains_key(name@),
            },
    {
        match self.position(name) {
            Some(i) => {
                proof {
                    use_type_invariant(self);
                    lemma_index_of_unique(name_views(self.names@), i as int);
                }
                Some(&self.traces[i])
            },
            None => None,
        }
    }

    /// These variables, with `name` given the trace `trace` in place of the
    /// one it had, if any.
    pub fn insert(self, name: String, trace: Vec<u32>) -> (vars: Self)
        ensures
            vars@ == self@.insert(name@, trace@),
    {
        proof {
            use_type_invariant(&self);
        }
        let at = self.position(name.as_str());
        let ghost before = name_views(self.names@);
        let ghost old_traces = self.traces@;
        let VarTraces { names, traces } = self;
        let mut names = names;
        let mut traces = traces;
        match at {
            Some(i) => {
                traces.set(i, trace);
                let vars = VarTraces { names, traces };
                proof {
                    lemma_index_of_unique(before, i as int);
                    assert forall|other: Seq<char>| before.contains(other) implies 0
                        <= #[trigger] before.index_of(other) < before.len() && before[before.index_of(
                        other,
                    )] == other by {}
                    assert(vars@ =~= self@.insert(name@, trace@));
                }
                vars
            },
            None => {
                names.push(name);
                traces.push(trace);
                proof {
                    let after = name_views(names@);
                    assert(after =~= before.push(name@));
                    assert(after.no_duplicates());
                }
                let vars = VarTraces { names, traces };
                proof {
                    let after = name_views(vars.names@);
                    assert forall|other: Seq<char>| before.contains(other) implies 0
                        <= #[trigger] before.index_of(other) < before.len() && before[before.index_of(
                        other,
                    )] == other && after.index_of(other) == before.index_of(other) by {
                        lemma_index_of_unique(after, before.index_of(other));
                    }
                    lemma_index_of_unique(after, before.len() as int);
                    assert forall|other: Seq<char>| after.contains(other) implies before.contains(
                        other,
                    ) || other == name@ by {
                        let k = choose|k: int| 0 <= k < after.len() && after[k] == other;
                        if k < before.len() {
                            assert(before[k] == other);
                        }
                    }
                    assert forall|other: Seq<char>| before.contains(other) implies after.contains(
                        other,
                    ) by {
                        let k = choose|k: int| 0 <= k < before.len() && before[k] == other;
                        assert(after[k] == other);
                    }
                    assert(after.contains(name@)) by {
                        assert(after[before.len() as int] == name@);
                    }
                    assert(vars@ =~= self@.insert(name@, trace@));
                }
                vars
            },
        }
    }
}

/// In a sequence without duplicates each element is found at its own place.
pub proof fn lemma_index_of_unique<A>(items: Seq<A>, i: int)
    requires
        items.no_duplicates(),
        0 <= i < items.len(),
    ensures
        items.contains(items[i]),
        items.index_of(items[i]) == i,
{
    let j = items.index_of(items[i]);
    assert(0 <= j < items.len() && items[j] == items[i]);
}

} // verus!
