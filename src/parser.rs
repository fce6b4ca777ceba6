//! The executable scanner: the machine's state held in `Parser`, with a proof
//! that each step does what `machine::step` says.
use vstd::prelude::*;

use crate::chars::{compare_letter, ends_inside, is_number, is_number_text, is_space, string_of};
use crate::error::{SyntaxError, Violation};
use crate::machine::{
    add_member, array_step, close_array, close_members, close_number, close_object, complete,
    finish, gather, initial, lemma_step_progresses, literal_rest, literal_step, number_step,
    object_step, open_at, parse_spec, run, step, string_step, tail_start, Closing, Machine,
    ObjectParseState, State, StateWithCursor,
};
use crate::stack::{
    new_opens, new_phases, new_starts, new_values, open_items, opens_slice, phase_items,
    phases_slice, pop_opens, pop_phases, pop_starts, pop_values, push_opens, push_phases,
    push_starts, push_values, start_items, starts_slice, value_items, values_slice, Stack,
};
use crate::value::{
    lemma_member_models, lemma_models, lemma_models_drop_last, lemma_models_push,
    lemma_models_subrange, member_models, models, result_model, Json, JsonModel, Member,
};

verus! {

/// The characters of a text, in order.
pub fn chars_of(input: &str) -> (r: Vec<char>)
    ensures
        r@ == input@,
{
    let mut v: Vec<char> = Vec::new();
    for c in it: input.chars()
        invariant
            it.seq() == input@,
            v@ == input@.take(it.index() as int),
    {
        v.push(c);
    }
    v
}

/// The scanner: the characters, the cursor, and the stacks of `Machine`.
struct Parser {
    chars: Vec<char>,
    cursor: usize,
    opens: Stack<StateWithCursor>,
    values: Stack<Json>,
    starts: Stack<usize>,
    phases: Stack<ObjectParseState>,
}

/// What a step of the parser reports, against what the machine does.
spec fn agrees(r: Result<(), SyntaxError>, p: Parser, expected: Result<Machine, SyntaxError>) -> bool {
    match r {
        Ok(_) => p.wf() && expected == Ok::<Machine, SyntaxError>(p.machine()),
        Err(e) => expected == Err::<Machine, SyntaxError>(e),
    }
}

impl Parser {
    spec fn machine(self) -> Machine {
        Machine {
            cursor: self.cursor,
            opens: open_items(self.opens),
            values: models(value_items(self.values)),
            starts: start_items(self.starts),
            phases: phase_items(self.phases),
        }
    }

    spec fn wf(self) -> bool {
        &&& self.cursor <= self.chars@.len() <= usize::MAX
        &&& value_items(self.values).len() == start_items(self.starts).len()
        &&& forall|i: int| 0 <= i < open_items(self.opens).len() ==> #[trigger] open_items(self.opens)[i].cursor < self.cursor
    }

    fn open_at(&mut self) -> (r: Result<(), SyntaxError>)
        requires
            old(self).wf(),
            old(self).cursor < old(self).chars@.len(),
        ensures
            final(self).chars@ == old(self).chars@,
            agrees(r, *final(self), open_at(old(self).chars@, old(self).machine())),
    {
        let c = self.chars[self.cursor];
        let state = if is_number(c) {
            State::NumberOpen
        } else if c == '"' {
            State::StringOpen
        } else if c == '{' {
            State::ObjectOpen
        } else if c == '[' {
            State::ArrayOpen
        } else if c == 'n' {
            State::NullOpen
        } else if c == 't' {
            State::TrueOpen
        } else if c == 'f' {
            State::FalseOpen
        } else {
            return Err(SyntaxError::UnexpectedCharacterAt(self.cursor));
        };
        push_opens(&mut self.opens, StateWithCursor { state, cursor: self.cursor });
        if state == State::ObjectOpen {
            push_phases(&mut self.phases, ObjectParseState::ParseKey);
        }
        self.cursor = self.cursor + 1;
        Ok(())
    }

    /// Pops the innermost open construct and pushes `v` at its start.
    fn complete(&mut self, v: Json, cursor: usize)
        requires
            old(self).wf(),
            open_items(old(self).opens).len() > 0,
            old(self).cursor <= cursor <= old(self).chars@.len(),
        ensures
            final(self).chars@ == old(self).chars@,
            final(self).wf(),
            final(self).machine() == complete(old(self).machine(), v.model(), cursor),
    {
        let top = opens_slice(&self.opens)[opens_slice(&self.opens).len() - 1];
        pop_opens(&mut self.opens);
        proof {
            lemma_models_push(value_items(self.values), v);
        }
        push_values(&mut self.values, v);
        push_starts(&mut self.starts, top.cursor);
        self.cursor = cursor;
    }

    fn string_step(&mut self) -> (r: Result<(), SyntaxError>)
        requires
            old(self).wf(),
            old(self).cursor < old(self).chars@.len(),
            open_items(old(self).opens).len() > 0,
        ensures
            final(self).chars@ == old(self).chars@,
            agrees(r, *final(self), Ok(string_step(old(self).chars@, old(self).machine()))),
    {
        let top = opens_slice(&self.opens)[opens_slice(&self.opens).len() - 1];
        if self.chars[self.cursor] == '"' {
            let s = string_of(self.chars.as_slice(), top.cursor + 1, self.cursor);
            self.complete(Json::String(s), self.cursor + 1);
        } else {
            self.cursor = self.cursor + 1;
        }
        Ok(())
    }

    fn close_number(&mut self, end: usize, cursor: usize) -> (r: Result<(), SyntaxError>)
        requires
            old(self).wf(),
            open_items(old(self).opens).len() > 0,
            old(self).cursor <= end <= old(self).chars@.len(),
            old(self).cursor <= cursor <= old(self).chars@.len(),
        ensures
            final(self).chars@ == old(self).chars@,
            agrees(r, *final(self), close_number(old(self).chars@, old(self).machine(), end, cursor)),
    {
        let start = opens_slice(&self.opens)[opens_slice(&self.opens).len() - 1].cursor;
        if is_number_text(self.chars.as_slice(), start, end) {
            let t = string_of(self.chars.as_slice(), start, end);
            self.complete(Json::Number(t), cursor);
            Ok(())
        } else {
            Err(SyntaxError::UnexpectedCharacterAt(end))
        }
    }

    fn number_step(&mut self) -> (r: Result<(), SyntaxError>)
        requires
            old(self).wf(),
            old(self).cursor < old(self).chars@.len(),
            open_items(old(self).opens).len() > 0,
        ensures
            final(self).chars@ == old(self).chars@,
            agrees(r, *final(self), number_step(old(self).chars@, old(self).machine())),
    {
        if is_number(self.chars[self.cursor]) {
            self.cursor = self.cursor + 1;
            Ok(())
        } else {
            let end = self.cursor;
            self.close_number(end, end)
        }
    }

    fn literal_step(&mut self) -> (r: Result<(), SyntaxError>)
        requires
            old(self).wf(),
            old(self).cursor < old(self).chars@.len(),
            open_items(old(self).opens).len() > 0,
            open_items(old(self).opens).last().state == State::TrueOpen || open_items(old(self).opens).last().state
                == State::FalseOpen || open_items(old(self).opens).last().state == State::NullOpen,
        ensures
            final(self).chars@ == old(self).chars@,
            agrees(r, *final(self), literal_step(old(self).chars@, old(self).machine())),
    {
        let top = opens_slice(&self.opens)[opens_slice(&self.opens).len() - 1];
        let (rest, v) = if top.state == State::TrueOpen {
            (vec!['r', 'u', 'e'], Json::True)
        } else if top.state == State::FalseOpen {
            (vec!['a', 'l', 's', 'e'], Json::False)
        } else {
            (vec!['u', 'l', 'l'], Json::Null)
        };
        assert(rest@ =~= literal_rest(top.state));
        match compare_letter(self.chars.as_slice(), rest.as_slice(), self.cursor) {
            Ok(()) => {
                let cursor = self.cursor + rest.len();
                self.complete(v, cursor);
                Ok(())
            },
            Err(_) => if ends_inside(self.chars.as_slice(), rest.as_slice(), self.cursor) {
                Err(SyntaxError::UnterminatedInput)
            } else {
                Err(SyntaxError::UnexpectedCharacterAt(top.cursor))
            },
        }
    }

    fn close_array(&mut self) -> (r: Result<(), SyntaxError>)
        requires
            old(self).wf(),
            old(self).cursor < old(self).chars@.len(),
            open_items(old(self).opens).len() > 0,
        ensures
            final(self).chars@ == old(self).chars@,
            agrees(r, *final(self), Ok(close_array(old(self).machine()))),
    {
        let start = opens_slice(&self.opens)[opens_slice(&self.opens).len() - 1].cursor;
        let ghost old_values = value_items(self.values);
        let mut at = starts_slice(&self.starts).len();
        while at > 0 && starts_slice(&self.starts)[at - 1] > start
            invariant
                *self == *old(self),
                start == open_items(self.opens).last().cursor,
                at <= start_items(self.starts).len(),
                tail_start(start_items(self.starts), start, start_items(self.starts).len() as int) == tail_start(
                    start_items(self.starts),
                    start,
                    at as int,
                ),
            decreases at,
        {
            at = at - 1;
        }
        assert(tail_start(start_items(self.starts), start, at as int) == at);
        let ghost old_starts = start_items(self.starts);
        let n = values_slice(&self.values).len();
        assert(old_starts.len() == n);
        // the elements come off the stack last first, and go back in order
        let mut rev: Vec<Json> = Vec::new();
        while values_slice(&self.values).len() > at
            invariant
                self.chars == old(self).chars,
                self.cursor == old(self).cursor,
                self.opens == old(self).opens,
                self.starts == old(self).starts,
                self.phases == old(self).phases,
                at <= value_items(self.values).len() <= n,
                n == old_values.len(),
                value_items(self.values) == old_values.subrange(
                    0,
                    value_items(self.values).len() as int,
                ),
                rev@.len() == n - value_items(self.values).len(),
                forall|j: int| 0 <= j < rev@.len() ==> #[trigger] rev@[j] == old_values[n - 1 - j],
            decreases value_items(self.values).len(),
        {
            if let Some(v) = pop_values(&mut self.values) {
                rev.push(v);
            }
        }
        let mut items: Vec<Json> = Vec::new();
        while rev.len() > 0
            invariant
                self.chars == old(self).chars,
                self.cursor == old(self).cursor,
                self.opens == old(self).opens,
                self.starts == old(self).starts,
                self.phases == old(self).phases,
                value_items(self.values) == old_values.subrange(0, at as int),
                n == old_values.len(),
                at <= n,
                items@.len() + rev@.len() == n - at,
                forall|j: int| 0 <= j < items@.len() ==> #[trigger] items@[j] == old_values[at + j],
                forall|j: int| 0 <= j < rev@.len() ==> #[trigger] rev@[j] == old_values[n - 1 - j],
            decreases rev@.len(),
        {
            if let Some(v) = rev.pop() {
                items.push(v);
            }
        }
        assert(items@ =~= old_values.subrange(at as int, n as int));
        while starts_slice(&self.starts).len() > at
            invariant
                self.chars == old(self).chars,
                self.cursor == old(self).cursor,
                self.opens == old(self).opens,
                self.phases == old(self).phases,
                value_items(self.values) == old_values.subrange(0, at as int),
                items@ == old_values.subrange(at as int, n as int),
                n == old_values.len(),
                old_starts.len() == n,
                at <= start_items(self.starts).len() <= n,
                start_items(self.starts) == old_starts.subrange(
                    0,
                    start_items(self.starts).len() as int,
                ),
            decreases start_items(self.starts).len(),
        {
            pop_starts(&mut self.starts);
        }
        pop_opens(&mut self.opens);
        proof {
            lemma_models(old_values);
            lemma_models_subrange(old_values, 0, at as int);
            lemma_models_subrange(old_values, at as int, old_values.len() as int);
            lemma_models_push(value_items(self.values), Json::Array(items));
        }
        push_values(&mut self.values, Json::Array(items));
        push_starts(&mut self.starts, start);
        self.cursor = self.cursor + 1;
        assert(self.machine() == close_array(old(self).machine()));
        Ok(())
    }

    fn close_object(&mut self) -> (r: Result<(), SyntaxError>)
        requires
            old(self).wf(),
            old(self).cursor < old(self).chars@.len(),
            open_items(old(self).opens).len() > 0,
        ensures
            final(self).chars@ == old(self).chars@,
            agrees(r, *final(self), close_object(old(self).machine())),
    {
        let start = opens_slice(&self.opens)[opens_slice(&self.opens).len() - 1].cursor;
        let pos = self.cursor;
        let mut members: Vec<Member> = Vec::new();
        let ghost mut pairs: Seq<(Seq<char>, JsonModel)> = Seq::empty();
        let mut popped = false;
        let ghost m0 = self.machine();
        let ghost first = Closing {
            values: models(value_items(self.values)),
            starts: start_items(self.starts),
            phases: phase_items(self.phases),
            pairs: Seq::empty(),
            popped: false,
        };
        while phases_slice(&self.phases).len() > 0 && values_slice(&self.values).len() > 0 && starts_slice(&self.starts).len() > 0
            && starts_slice(&self.starts)[starts_slice(&self.starts).len() - 1] > start
            invariant
                self.chars == old(self).chars,
                self.opens == old(self).opens,
                self.cursor == pos,
                value_items(self.values).len() == start_items(self.starts).len(),
                open_items(old(self).opens).len() > 0,
                start == open_items(old(self).opens).last().cursor,
                m0 == old(self).machine(),
                pos == old(self).cursor,
                first == (Closing {
                    values: models(value_items(old(self).values)),
                    starts: start_items(old(self).starts),
                    phases: phase_items(old(self).phases),
                    pairs: Seq::empty(),
                    popped: false,
                }),
                member_models(members@) == gather(pairs),
                close_members(first, start, pos) == close_members(
                    Closing {
                        values: models(value_items(self.values)),
                        starts: start_items(self.starts),
                        phases: phase_items(self.phases),
                        pairs,
                        popped,
                    },
                    start,
                    pos,
                ),
            decreases value_items(self.values).len(),
        {
            let ghost cur = Closing {
                values: models(value_items(self.values)),
                starts: start_items(self.starts),
                phases: phase_items(self.phases),
                pairs,
                popped,
            };
            proof {
                lemma_models_drop_last(value_items(self.values));
            }
            let value = match pop_values(&mut self.values) {
                Some(v) => v,
                None => return Err(SyntaxError::StructuralViolation(Violation::KeyNotString, pos)),
            };
            pop_starts(&mut self.starts);
            pop_phases(&mut self.phases);
            if phases_slice(&self.phases).len() > 0 {
                pop_phases(&mut self.phases);
            }
            if values_slice(&self.values).len() == 0 {
                assert(close_members(cur, start, pos) == Err::<Closing, SyntaxError>(
                    SyntaxError::StructuralViolation(Violation::KeyNotString, pos),
                ));
                assert(close_object(m0) == Err::<Machine, SyntaxError>(
                    SyntaxError::StructuralViolation(Violation::KeyNotString, pos),
                ));
                return Err(SyntaxError::StructuralViolation(Violation::KeyNotString, pos));
            }
            proof {
                lemma_models_drop_last(value_items(self.values));
            }
            let key = match pop_values(&mut self.values) {
                Some(k) => k,
                None => return Err(SyntaxError::StructuralViolation(Violation::KeyNotString, pos)),
            };
            pop_starts(&mut self.starts);
            match key {
                Json::String(k) => {
                    proof {
                        let p = seq![(k@, value.model())] + pairs;
                        assert(p.drop_first() =~= pairs);
                        pairs = p;
                    }
                    insert_member(&mut members, k, value);
                    popped = true;
                },
                _ => {
                    assert(close_members(cur, start, pos) == Err::<Closing, SyntaxError>(
                        SyntaxError::StructuralViolation(Violation::KeyNotString, pos),
                    ));
                    assert(close_object(m0) == Err::<Machine, SyntaxError>(
                        SyntaxError::StructuralViolation(Violation::KeyNotString, pos),
                    ));
                    return Err(SyntaxError::StructuralViolation(Violation::KeyNotString, pos));
                },
            }
        }
        proof {
            lemma_models(value_items(self.values));
        }
        if !popped && phases_slice(&self.phases).len() > 0 {
            pop_phases(&mut self.phases);
        }
        pop_opens(&mut self.opens);
        proof {
            lemma_models_push(value_items(self.values), Json::Object(members));
        }
        push_values(&mut self.values, Json::Object(members));
        push_starts(&mut self.starts, start);
        self.cursor = self.cursor + 1;
        Ok(())
    }

    fn array_step(&mut self) -> (r: Result<(), SyntaxError>)
        requires
            old(self).wf(),
            old(self).cursor < old(self).chars@.len(),
            open_items(old(self).opens).len() > 0,
        ensures
            final(self).chars@ == old(self).chars@,
            agrees(r, *final(self), array_step(old(self).chars@, old(self).machine())),
    {
        let c = self.chars[self.cursor];
        if c == ']' {
            self.close_array()
        } else if c == ',' {
            self.cursor = self.cursor + 1;
            Ok(())
        } else {
            self.open_at()
        }
    }

    fn object_step(&mut self) -> (r: Result<(), SyntaxError>)
        requires
            old(self).wf(),
            old(self).cursor < old(self).chars@.len(),
            open_items(old(self).opens).len() > 0,
        ensures
            final(self).chars@ == old(self).chars@,
            agrees(r, *final(self), object_step(old(self).chars@, old(self).machine())),
    {
        let c = self.chars[self.cursor];
        if c == '}' {
            self.close_object()
        } else if c == ':' {
            if phases_slice(&self.phases).len() == 0 {
                Err(SyntaxError::StructuralViolation(Violation::NoPhase, self.cursor))
            } else if phases_slice(&self.phases)[phases_slice(&self.phases).len() - 1] == ObjectParseState::ParseValue {
                Err(SyntaxError::StructuralViolation(Violation::PhaseWasValue, self.cursor))
            } else {
                push_phases(&mut self.phases, ObjectParseState::ParseValue);
                self.cursor = self.cursor + 1;
                Ok(())
            }
        } else if c == ',' {
            push_phases(&mut self.phases, ObjectParseState::ParseKey);
            self.cursor = self.cursor + 1;
            Ok(())
        } else if phases_slice(&self.phases).len() == 0 {
            Err(SyntaxError::StructuralViolation(Violation::NoPhase, self.cursor))
        } else if phases_slice(&self.phases)[phases_slice(&self.phases).len() - 1]
            == ObjectParseState::ParseValue || c == '"' {
            self.open_at()
        } else if is_number(c) || c == '{' || c == '[' || c == 'n' || c == 't' || c == 'f' {
            Err(SyntaxError::StructuralViolation(Violation::KeyNotString, self.cursor))
        } else {
            Err(SyntaxError::UnexpectedCharacterAt(self.cursor))
        }
    }

    fn step(&mut self) -> (r: Result<(), SyntaxError>)
        requires
            old(self).wf(),
            old(self).cursor < old(self).chars@.len(),
        ensures
            final(self).chars@ == old(self).chars@,
            agrees(r, *final(self), step(old(self).chars@, old(self).machine())),
    {
        let c = self.chars[self.cursor];
        if opens_slice(&self.opens).len() == 0 {
            if is_space(c) {
                self.cursor = self.cursor + 1;
                Ok(())
            } else {
                self.open_at()
            }
        } else {
            match opens_slice(&self.opens)[opens_slice(&self.opens).len() - 1].state {
                State::StringOpen => self.string_step(),
                State::NumberOpen => self.number_step(),
                State::TrueOpen | State::FalseOpen | State::NullOpen => self.literal_step(),
                State::ArrayOpen => if is_space(c) {
                    self.cursor = self.cursor + 1;
                    Ok(())
                } else {
                    self.array_step()
                },
                State::ObjectOpen => if is_space(c) {
                    self.cursor = self.cursor + 1;
                    Ok(())
                } else {
                    self.object_step()
                },
            }
        }
    }

    fn finish(&mut self) -> (r: Result<Json, SyntaxError>)
        requires
            old(self).wf(),
            old(self).cursor == old(self).chars@.len(),
        ensures
            result_model(r) == finish(old(self).chars@, old(self).machine()),
    {
        if opens_slice(&self.opens).len() > 0 && opens_slice(&self.opens)[opens_slice(&self.opens).len() - 1].state == State::NumberOpen {
            let n = self.chars.len();
            match self.close_number(n, n) {
                Ok(()) => {},
                Err(e) => {
                    return Err(e);
                },
            }
        }
        proof {
            lemma_models(value_items(self.values));
        }
        if opens_slice(&self.opens).len() > 0 {
            Err(SyntaxError::UnterminatedInput)
        } else if values_slice(&self.values).len() == 0 {
            Err(SyntaxError::EndOfInputTooEarly)
        } else if values_slice(&self.values).len() > 1 {
            Err(SyntaxError::MultipleRootValues)
        } else {
            match pop_values(&mut self.values) {
                Some(v) => Ok(v),
                None => Err(SyntaxError::EndOfInputTooEarly),
            }
        }
    }
}

/// Adds `key` with `value` in front of the entries, unless `key` is there already.
fn insert_member(members: &mut Vec<Member>, key: String, value: Json)
    ensures
        member_models(final(members)@) == add_member(
            member_models(old(members)@),
            key@,
            value.model(),
        ),
{
    proof {
        lemma_member_models(members@);
    }
    let mut i: usize = 0;
    while i < members.len()
        invariant
            members == old(members),
            member_models(members@).len() == members@.len(),
            forall|k: int|
                0 <= k < members@.len() ==> #[trigger] member_models(members@)[k] == (
                members@[k].key@,
                members@[k].value.model(),
                ),
            forall|j: int| 0 <= j < i ==> members@[j].key@ != key@,
        decreases members@.len() - i,
    {
        if members[i].key == key {
            assert(member_models(members@)[i as int].0 == key@);
            return;
        }
        i = i + 1;
    }
    let ghost before = members@;
    members.insert(0, Member { key, value });
    proof {
        lemma_member_models(members@);
        assert(member_models(members@) =~= seq![(key@, value.model())] + member_models(before));
    }
}

/// Parses a JSON text into its value tree.
pub fn parse(input: &str) -> (r: Result<Json, SyntaxError>)
    ensures
        result_model(r) == parse_spec(input@),
{
    let chars = chars_of(input);
    if chars.len() == 0 {
        return Err(SyntaxError::EndOfInputTooEarly);
    }
    let mut p = Parser {
        chars,
        cursor: 0,
        opens: new_opens(),
        values: new_values(),
        starts: new_starts(),
        phases: new_phases(),
    };
    assert(p.machine() == initial());
    while p.cursor < p.chars.len()
        invariant
            p.wf(),
            p.chars@ == input@,
            run(input@, p.machine()) == run(input@, initial()),
        decreases p.chars@.len() - p.cursor, open_items(p.opens).len(),
    {
        proof {
            lemma_step_progresses(input@, p.machine());
        }
        match p.step() {
            Ok(()) => {},
            Err(e) => {
                return Err(e);
            },
        }
    }
    p.finish()
}

} // verus!
