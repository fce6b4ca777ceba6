//! The parser as a state machine over mathematical values: one `step` per
//! character position, and `run` until the input is exhausted.
use vstd::prelude::*;

use crate::chars::{is_number_char, is_space_char, valid_number};
use crate::error::{SyntaxError, Violation};
use crate::value::JsonModel;

verus! {

/// The kind of a construct whose opening character has been read.
#[derive(Debug, PartialEq, Eq, Clone, Copy, Structural)]
pub enum State {
    ObjectOpen,
    ArrayOpen,
    NumberOpen,
    StringOpen,
    TrueOpen,
    FalseOpen,
    NullOpen,
}

/// An open construct and the position of its opening character.
#[derive(Debug, PartialEq, Eq, Clone, Copy, Structural)]
pub struct StateWithCursor {
    pub state: State,
    pub cursor: usize,
}

/// Whether the next token of the innermost object is a key or a value.
#[derive(Debug, PartialEq, Eq, Clone, Copy, Structural)]
pub enum ObjectParseState {
    ParseKey,
    ParseValue,
}

/// The scanner's state: the cursor, the open constructs, the completed
/// values with the start position of each, and the object phases.
pub struct Machine {
    pub cursor: usize,
    pub opens: Seq<StateWithCursor>,
    pub values: Seq<JsonModel>,
    pub starts: Seq<usize>,
    pub phases: Seq<ObjectParseState>,
}

pub open spec fn initial() -> Machine {
    Machine {
        cursor: 0,
        opens: Seq::empty(),
        values: Seq::empty(),
        starts: Seq::empty(),
        phases: Seq::empty(),
    }
}

/// The construct that a character opens, if any.
pub open spec fn opener(c: char) -> Option<State> {
    if is_number_char(c) {
        Some(State::NumberOpen)
    } else if c == '"' {
        Some(State::StringOpen)
    } else if c == '{' {
        Some(State::ObjectOpen)
    } else if c == '[' {
        Some(State::ArrayOpen)
    } else if c == 'n' {
        Some(State::NullOpen)
    } else if c == 't' {
        Some(State::TrueOpen)
    } else if c == 'f' {
        Some(State::FalseOpen)
    } else {
        None
    }
}

/// The letters of a literal that follow its first one, and its value.
pub open spec fn literal_rest(s: State) -> Seq<char> {
    match s {
        State::TrueOpen => seq!['r', 'u', 'e'],
        State::FalseOpen => seq!['a', 'l', 's', 'e'],
        _ => seq!['u', 'l', 'l'],
    }
}

pub open spec fn literal_value(s: State) -> JsonModel {
    match s {
        State::TrueOpen => JsonModel::True,
        State::FalseOpen => JsonModel::False,
        _ => JsonModel::Null,
    }
}

pub open spec fn advance(m: Machine) -> Machine {
    Machine { cursor: (m.cursor + 1) as usize, ..m }
}

/// Opens the construct that the character under the cursor starts, and moves past it.
pub open spec fn open_at(input: Seq<char>, m: Machine) -> Result<Machine, SyntaxError> {
    match opener(input[m.cursor as int]) {
        None => Err(SyntaxError::UnexpectedCharacterAt(m.cursor)),
        Some(s) => Ok(
            Machine {
                cursor: (m.cursor + 1) as usize,
                opens: m.opens.push(StateWithCursor { state: s, cursor: m.cursor }),
                phases: if s == State::ObjectOpen {
                    m.phases.push(ObjectParseState::ParseKey)
                } else {
                    m.phases
                },
                ..m
            },
        ),
    }
}

/// Pops the innermost open construct and records `v` as completed at its start.
pub open spec fn complete(m: Machine, v: JsonModel, cursor: usize) -> Machine {
    Machine {
        cursor,
        opens: m.opens.drop_last(),
        values: m.values.push(v),
        starts: m.starts.push(m.opens.last().cursor),
        phases: m.phases,
    }
}

/// A string takes every character up to the next `"`; escapes are not
/// decoded.
pub open spec fn string_step(input: Seq<char>, m: Machine) -> Machine {
    let start = m.opens.last().cursor;
    if input[m.cursor as int] == '"' {
        complete(
            m,
            JsonModel::Str(input.subrange(start + 1, m.cursor as int)),
            (m.cursor + 1) as usize,
        )
    } else {
        advance(m)
    }
}

/// Closes the number that spans `start..end`, or rejects it at `end`.
pub open spec fn close_number(input: Seq<char>, m: Machine, end: usize, cursor: usize) -> Result<
    Machine,
    SyntaxError,
> {
    let text = input.subrange(m.opens.last().cursor as int, end as int);
    if valid_number(text) {
        Ok(complete(m, JsonModel::Number(text), cursor))
    } else {
        Err(SyntaxError::UnexpectedCharacterAt(end))
    }
}

/// A number runs over number characters and ends before the first other
/// character, which is then read again (or at the end of the input: `finish`).
pub open spec fn number_step(input: Seq<char>, m: Machine) -> Result<Machine, SyntaxError> {
    if is_number_char(input[m.cursor as int]) {
        Ok(advance(m))
    } else {
        close_number(input, m, m.cursor, m.cursor)
    }
}

/// The text ends inside `word` placed at `cursor`: what is left of `input`
/// from there is a proper beginning of `word`.
pub open spec fn cut_short(input: Seq<char>, cursor: int, word: Seq<char>) -> bool {
    &&& 0 <= cursor <= input.len() < cursor + word.len()
    &&& input.subrange(cursor, input.len() as int) == word.subrange(0, input.len() - cursor)
}

/// After the first letter of `true`, `false` or `null`, the other letters
/// must follow. Where the text ends while they do, the literal is unterminated;
/// otherwise it is rejected at its start.
pub open spec fn literal_step(input: Seq<char>, m: Machine) -> Result<Machine, SyntaxError> {
    let top = m.opens.last();
    let rest = literal_rest(top.state);
    if m.cursor + rest.len() <= input.len() && input.subrange(
        m.cursor as int,
        m.cursor + rest.len(),
    ) == rest {
        Ok(complete(m, literal_value(top.state), (m.cursor + rest.len()) as usize))
    } else if cut_short(input, m.cursor as int, rest) {
        Err(SyntaxError::UnterminatedInput)
    } else {
        Err(SyntaxError::UnexpectedCharacterAt(top.cursor))
    }
}

/// Where the completed values that belong to a construct opened at `start`
/// begin: the values on top of the stack whose start lies after `start`.
pub open spec fn tail_start(starts: Seq<usize>, start: usize, i: int) -> int
    decreases i,
{
    if i <= 0 || i > starts.len() {
        0
    } else if starts[i - 1] > start {
        tail_start(starts, start, i - 1)
    } else {
        i
    }
}

/// Closes the innermost array: its elements are the completed values that
/// started after it, in the order they were completed.
pub open spec fn close_array(m: Machine) -> Machine {
    let start = m.opens.last().cursor;
    let at = tail_start(m.starts, start, m.starts.len() as int);
    Machine {
        cursor: (m.cursor + 1) as usize,
        opens: m.opens.drop_last(),
        values: m.values.subrange(0, at).push(JsonModel::Array(m.values.subrange(at, m.values.len() as int))),
        starts: m.starts.subrange(0, at).push(start),
        phases: m.phases,
    }
}

pub open spec fn has_key(ms: Seq<(Seq<char>, JsonModel)>, key: Seq<char>) -> bool {
    exists|i: int| 0 <= i < ms.len() && #[trigger] ms[i].0 == key
}

/// Adds an entry in front unless the key is there already.
pub open spec fn add_member(ms: Seq<(Seq<char>, JsonModel)>, key: Seq<char>, v: JsonModel) -> Seq<
    (Seq<char>, JsonModel),
> {
    if has_key(ms, key) {
        ms
    } else {
        seq![(key, v)] + ms
    }
}

/// The entries of an object whose key/value pairs are `pairs`, in source
/// order: the pairs are taken from the last to the first, so that the last
/// occurrence of a key is the one kept.
pub open spec fn gather(pairs: Seq<(Seq<char>, JsonModel)>) -> Seq<(Seq<char>, JsonModel)>
    decreases pairs.len(),
{
    if pairs.len() == 0 {
        Seq::empty()
    } else {
        add_member(gather(pairs.drop_first()), pairs[0].0, pairs[0].1)
    }
}

/// The state of closing an object: what is left on the stacks, the pairs
/// taken so far (in source order), and whether any was.
pub struct Closing {
    pub values: Seq<JsonModel>,
    pub starts: Seq<usize>,
    pub phases: Seq<ObjectParseState>,
    pub pairs: Seq<(Seq<char>, JsonModel)>,
    pub popped: bool,
}

/// Takes key/value pairs off the stacks while the top value belongs to the
/// object opened at `start` and a phase is left for it.
pub open spec fn close_members(c: Closing, start: usize, pos: usize) -> Result<Closing, SyntaxError>
    decreases c.values.len(),
{
    if c.phases.len() > 0 && c.values.len() > 0 && c.starts.len() > 0 && c.starts.last() > start {
        let value = c.values.last();
        let values = c.values.drop_last();
        let starts = c.starts.drop_last();
        let phases = c.phases.drop_last();
        let phases = if phases.len() > 0 {
            phases.drop_last()
        } else {
            phases
        };
        if values.len() == 0 || starts.len() == 0 {
            Err(SyntaxError::StructuralViolation(Violation::KeyNotString, pos))
        } else {
            match values.last() {
                JsonModel::Str(key) => close_members(
                    Closing {
                        values: values.drop_last(),
                        starts: starts.drop_last(),
                        phases,
                        pairs: seq![(key, value)] + c.pairs,
                        popped: true,
                    },
                    start,
                    pos,
                ),
                _ => Err(SyntaxError::StructuralViolation(Violation::KeyNotString, pos)),
            }
        }
    } else {
        Ok(c)
    }
}

/// Closes the innermost object, whose entries are `gather` of its pairs.
pub open spec fn close_object(m: Machine) -> Result<Machine, SyntaxError> {
    let start = m.opens.last().cursor;
    let c = Closing {
        values: m.values,
        starts: m.starts,
        phases: m.phases,
        pairs: Seq::empty(),
        popped: false,
    };
    match close_members(c, start, m.cursor) {
        Err(e) => Err(e),
        Ok(c) => Ok(
            Machine {
                cursor: (m.cursor + 1) as usize,
                opens: m.opens.drop_last(),
                values: c.values.push(JsonModel::Object(gather(c.pairs))),
                starts: c.starts.push(start),
                // an object with no entry still holds the phase it opened with
                phases: if !c.popped && c.phases.len() > 0 {
                    c.phases.drop_last()
                } else {
                    c.phases
                },
            },
        ),
    }
}

/// Inside an array: `]` closes it, `,` is passed over, and any other
/// character must open the next element.
pub open spec fn array_step(input: Seq<char>, m: Machine) -> Result<Machine, SyntaxError> {
    let c = input[m.cursor as int];
    if c == ']' {
        Ok(close_array(m))
    } else if c == ',' {
        Ok(advance(m))
    } else {
        open_at(input, m)
    }
}

/// Inside an object: `}` closes it, `:` moves from key to value, `,` back to
/// key; any other character opens a value. Where a key is due, a value of
/// another kind than a string breaks the object's structure.
pub open spec fn object_step(input: Seq<char>, m: Machine) -> Result<Machine, SyntaxError> {
    let c = input[m.cursor as int];
    if c == '}' {
        close_object(m)
    } else if c == ':' {
        if m.phases.len() == 0 {
            Err(SyntaxError::StructuralViolation(Violation::NoPhase, m.cursor))
        } else if m.phases.last() == ObjectParseState::ParseValue {
            Err(SyntaxError::StructuralViolation(Violation::PhaseWasValue, m.cursor))
        } else {
            Ok(Machine { phases: m.phases.push(ObjectParseState::ParseValue), ..advance(m) })
        }
    } else if c == ',' {
        Ok(Machine { phases: m.phases.push(ObjectParseState::ParseKey), ..advance(m) })
    } else if m.phases.len() == 0 {
        Err(SyntaxError::StructuralViolation(Violation::NoPhase, m.cursor))
    } else if m.phases.last() == ObjectParseState::ParseValue || c == '"' {
        open_at(input, m)
    } else if opener(c) is Some {
        Err(SyntaxError::StructuralViolation(Violation::KeyNotString, m.cursor))
    } else {
        Err(SyntaxError::UnexpectedCharacterAt(m.cursor))
    }
}

/// One step at the cursor: whitespace is skipped except inside a string,
/// number or literal; otherwise the innermost open construct decides, and
/// with none open a new construct must start here.
pub open spec fn step(input: Seq<char>, m: Machine) -> Result<Machine, SyntaxError> {
    let c = input[m.cursor as int];
    if m.opens.len() == 0 {
        if is_space_char(c) {
            Ok(advance(m))
        } else {
            open_at(input, m)
        }
    } else {
        match m.opens.last().state {
            State::StringOpen => Ok(string_step(input, m)),
            State::NumberOpen => number_step(input, m),
            State::TrueOpen | State::FalseOpen | State::NullOpen => literal_step(input, m),
            State::ArrayOpen => if is_space_char(c) {
                Ok(advance(m))
            } else {
                array_step(input, m)
            },
            State::ObjectOpen => if is_space_char(c) {
                Ok(advance(m))
            } else {
                object_step(input, m)
            },
        }
    }
}

/// What the input holds once it is exhausted: a number still open ends
/// there; then there must be exactly one completed value and nothing open.
pub open spec fn finish(input: Seq<char>, m: Machine) -> Result<JsonModel, SyntaxError> {
    let last = if m.opens.len() > 0 && m.opens.last().state == State::NumberOpen {
        close_number(input, m, input.len() as usize, input.len() as usize)
    } else {
        Ok(m)
    };
    match last {
        Err(e) => Err(e),
        Ok(m) => if m.opens.len() > 0 {
            Err(SyntaxError::UnterminatedInput)
        } else if m.values.len() == 0 {
            Err(SyntaxError::EndOfInputTooEarly)
        } else if m.values.len() > 1 {
            Err(SyntaxError::MultipleRootValues)
        } else {
            Ok(m.values[0])
        },
    }
}

/// Each step moves the cursor forward, within the input, or keeps it and
/// closes a construct.
pub proof fn lemma_step_progresses(input: Seq<char>, m: Machine)
    requires
        m.cursor < input.len() <= usize::MAX,
    ensures
        step(input, m) matches Ok(next) ==> (m.cursor < next.cursor <= input.len()) || (next.cursor
            == m.cursor && next.opens.len() < m.opens.len()),
{
    if m.opens.len() > 0 && m.opens.last().state == State::ObjectOpen {
        let start = m.opens.last().cursor;
        let c = Closing {
            values: m.values,
            starts: m.starts,
            phases: m.phases,
            pairs: Seq::empty(),
            popped: false,
        };
        let _ = close_members(c, start, m.cursor);
    }
}

/// Runs the machine until the cursor reaches the end of the input (an input
/// longer than memory can address is taken as already exhausted).
pub open spec fn run(input: Seq<char>, m: Machine) -> Result<JsonModel, SyntaxError>
    decreases input.len() - m.cursor, m.opens.len(),
    via run_decreases
{
    if m.cursor >= input.len() || input.len() > usize::MAX {
        finish(input, m)
    } else {
        match step(input, m) {
            Err(e) => Err(e),
            Ok(next) => run(input, next),
        }
    }
}

#[via_fn]
proof fn run_decreases(input: Seq<char>, m: Machine) {
    if m.cursor < input.len() <= usize::MAX {
        lemma_step_progresses(input, m);
    }
}

/// What parsing `input` gives.
pub open spec fn parse_spec(input: Seq<char>) -> Result<JsonModel, SyntaxError> {
    if input.len() == 0 {
        Err(SyntaxError::EndOfInputTooEarly)
    } else {
        run(input, initial())
    }
}

} // verus!
