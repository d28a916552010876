use vstd::prelude::*;
use crate::board::{line_of, parsed_cells, parses, Board};
use crate::generator::{clues_for, clues_for_spec, digits_of, generate, generated, minimal};
use crate::model::{clues, complete, is_solution, solutions, valid, well_formed};
use crate::rng::{start_state, Rng};
use crate::solver::{replay, search, solve_trace, steps_in_range, Step};
use crate::text::{decimal, push_char, push_decimal};

verus! {

/// A fresh puzzle of the named difficulty, as an 81-character line (`.` for an empty
/// cell): it has exactly one solution, and either exactly the number of givens the
/// difficulty asks for or more givens, none of which can go. It is the puzzle that
/// [`generate`] builds from a generator seeded with `seed`.
pub fn gen(difficulty: &str, seed: u64) -> (line: String)
    ensures
        exists|b: Seq<u8>, g: Seq<u8>|
            #![trigger line_of(b), solutions(b), complete(g)]
            {
                &&& line@ == line_of(b)
                &&& well_formed(b)
                &&& complete(g)
                &&& valid(g)
                &&& digits_of(b, g)
                &&& solutions(b) == set![g]
                &&& clues(b) >= clues_for_spec(difficulty@)
                &&& clues(b) == clues_for_spec(difficulty@) || minimal(b)
            },
        line@ == line_of(generated(start_state(seed), clues_for_spec(difficulty@) as int).0),
{
    let mut r = Rng::new(seed);
    let p = generate(&mut r, clues_for(difficulty));
    let line = p.board.to_line();
    proof {
        let b = p.board.cells@;
        let g = p.solution.cells@;
        assert(line_of(b) == line@ && solutions(b) == set![g] && complete(g));
    }
    line
}

/// One step as JSON: `[cell,digit]`, with digit 0 for a backtrack.
pub open spec fn step_json(st: Step) -> Seq<char> {
    let (i, v) = match st {
        Step::Place(i, v) => (i as nat, v as nat),
        Step::Erase(i) => (i as nat, 0nat),
    };
    seq!['['] + decimal(i) + seq![','] + decimal(v) + seq![']']
}

/// The steps as JSON items separated by commas.
pub open spec fn steps_items(steps: Seq<Step>) -> Seq<char>
    decreases steps.len(),
{
    if steps.len() == 0 {
        Seq::empty()
    } else if steps.len() == 1 {
        step_json(steps[0])
    } else {
        steps_items(steps.drop_last()) + seq![','] + step_json(steps.last())
    }
}

/// The steps as a JSON array of `[cell,digit]` pairs.
pub open spec fn steps_json(steps: Seq<Step>) -> Seq<char> {
    seq!['['] + steps_items(steps) + seq![']']
}

fn push_step(out: &mut String, st: Step)
    ensures
        final(out)@ == old(out)@ + step_json(st),
{
    push_char(out, '[');
    match st {
        Step::Place(i, v) => {
            push_decimal(out, i);
            push_char(out, ',');
            push_decimal(out, v as usize);
        },
        Step::Erase(i) => {
            push_decimal(out, i);
            push_char(out, ',');
            push_decimal(out, 0);
        },
    }
    push_char(out, ']');
    proof {
        assert(final(out)@ =~= old(out)@ + step_json(st));
    }
}

/// The search trace of a puzzle as compact JSON, `[[cell,digit],...]` with digit 0 for
/// a backtrack; `[]` when the text is not a puzzle. Replaying the steps on the puzzle
/// gives one of its solutions, or the puzzle itself when it has none.
pub fn trace(puzzle: &str) -> (out: String)
    ensures
        !parses(puzzle@) ==> out@ == seq!['[', ']'],
        parses(puzzle@) ==> exists|steps: Seq<Step>|
            #![trigger steps_json(steps)]
            {
                &&& out@ == steps_json(steps)
                &&& steps_in_range(steps)
                &&& (exists|g: Seq<u8>| is_solution(parsed_cells(puzzle@), g)) ==> is_solution(
                    parsed_cells(puzzle@),
                    replay(parsed_cells(puzzle@), steps),
                )
                &&& !(exists|g: Seq<u8>| is_solution(parsed_cells(puzzle@), g)) ==> replay(
                    parsed_cells(puzzle@),
                    steps,
                ) == parsed_cells(puzzle@)
            },
        parses(puzzle@) ==> out@ == steps_json(search(parsed_cells(puzzle@)).2),
        parses(puzzle@) ==> out@ == seq!['['] + comma_join(
            search(parsed_cells(puzzle@)).2.map_values(|st: Step| step_json(st)),
        ) + seq![']'],
{
    let mut b = match Board::parse(puzzle) {
        Some(b) => b,
        None => {
            let mut out = String::new();
            push_char(&mut out, '[');
            push_char(&mut out, ']');
            return out;
        },
    };
    let mut steps: Vec<Step> = Vec::new();
    solve_trace(&mut b, &mut steps);
    proof {
        assert(steps@.skip(0) =~= steps@);
    }
    let mut out = String::new();
    push_char(&mut out, '[');
    let mut k: usize = 0;
    while k < steps.len()
        invariant
            k <= steps@.len(),
            out@ == seq!['['] + steps_items(steps@.take(k as int)),
        decreases steps@.len() - k,
    {
        if k > 0 {
            push_char(&mut out, ',');
        }
        push_step(&mut out, steps[k]);
        proof {
            let t = steps@.take(k + 1);
            assert(t.drop_last() =~= steps@.take(k as int));
            if k == 0 {
                assert(steps@.take(0) =~= Seq::<Step>::empty());
                assert(out@ =~= seq!['['] + steps_items(t));
            } else {
                assert(out@ =~= seq!['['] + steps_items(t));
            }
        }
        k += 1;
    }
    push_char(&mut out, ']');
    proof {
        assert(steps@.take(steps@.len() as int) =~= steps@);
        assert(out@ =~= steps_json(steps@));
        lemma_steps_json_items(steps@);
    }
    out
}

/// The solved puzzle as an 81-character line, or the empty string when the text is
/// not a puzzle or the puzzle has no solution.
pub fn solve(puzzle: &str) -> (out: String)
    ensures
        out@.len() == 0 <==> !(parses(puzzle@) && exists|g: Seq<u8>| is_solution(parsed_cells(puzzle@), g)),
        out@.len() != 0 ==> exists|g: Seq<u8>|
            #![trigger line_of(g)]
            is_solution(parsed_cells(puzzle@), g) && out@ == line_of(g),
        out@.len() != 0 ==> out@ == line_of(search(parsed_cells(puzzle@)).1),
{
    match Board::parse(puzzle) {
        None => String::new(),
        Some(mut b) => {
            let ghost start = b.cells@;
            if crate::solver::solve(&mut b) {
                proof {
                    assert forall|i: int| 0 <= i < 81 implies #[trigger] b.cells@[i] <= 207 by {
                        assert(complete(b.cells@));
                    }
                }
                let out = b.to_line();
                proof {
                    assert(line_of(b.cells@).len() == 81);
                    assert(is_solution(start, b.cells@) && out@ == line_of(b.cells@));
                }
                out
            } else {
                String::new()
            }
        },
    }
}


/// The texts joined with a comma between neighbours.
pub open spec fn comma_join(items: Seq<Seq<char>>) -> Seq<char>
    decreases items.len(),
{
    if items.len() == 0 {
        Seq::empty()
    } else if items.len() == 1 {
        items[0]
    } else {
        items[0] + seq![','] + comma_join(items.drop_first())
    }
}

proof fn lemma_comma_join_push(items: Seq<Seq<char>>, last: Seq<char>)
    requires
        items.len() > 0,
    ensures
        comma_join(items.push(last)) == comma_join(items) + seq![','] + last,
    decreases items.len(),
{
    if items.len() == 1 {
        assert(items.push(last).drop_first() =~= seq![last]);
        assert(comma_join(seq![last]) == last);
    } else {
        assert(items.push(last).drop_first() =~= items.drop_first().push(last));
        lemma_comma_join_push(items.drop_first(), last);
        assert(comma_join(items.push(last)) =~= comma_join(items) + seq![','] + last);
    }
}

/// The trace JSON has one item per step, in order, separated by commas: it is `[`,
/// the items of the steps joined with `,`, then `]`.
pub proof fn lemma_steps_json_items(steps: Seq<Step>)
    ensures
        steps_json(steps) == seq!['['] + comma_join(steps.map_values(|st: Step| step_json(st)))
            + seq![']'],
    decreases steps.len(),
{
    lemma_steps_items_join(steps);
}

proof fn lemma_steps_items_join(steps: Seq<Step>)
    ensures
        steps_items(steps) == comma_join(steps.map_values(|st: Step| step_json(st))),
    decreases steps.len(),
{
    let f = |st: Step| step_json(st);
    if steps.len() == 0 {
        assert(steps.map_values(f) =~= Seq::<Seq<char>>::empty());
    } else if steps.len() == 1 {
        assert(steps.map_values(f) =~= seq![step_json(steps[0])]);
    } else {
        lemma_steps_items_join(steps.drop_last());
        assert(steps.map_values(f) =~= steps.drop_last().map_values(f).push(step_json(steps.last())));
        lemma_comma_join_push(steps.drop_last().map_values(f), step_json(steps.last()));
    }
}

/// A placement is written `[cell,digit]` and a backtrack `[cell,0]`, both in decimal.
pub proof fn lemma_step_json_form(st: Step)
    ensures
        match st {
            Step::Place(i, v) => step_json(st) == seq!['['] + decimal(i as nat) + seq![','] + decimal(
                v as nat,
            ) + seq![']'],
            Step::Erase(i) => step_json(st) == seq!['['] + decimal(i as nat) + seq![',', '0', ']'],
        },
{
    assert(decimal(0) == seq![crate::text::digit_char(0)]);
    assert(crate::text::digit_char(0) == '0') by {
        assert(((48 + 0) as u8) as char == '0');
    }
    match st {
        Step::Place(i, v) => {},
        Step::Erase(i) => {
            assert(seq!['['] + decimal(i as nat) + seq![','] + decimal(0) + seq![']'] =~= seq!['[']
                + decimal(i as nat) + seq![',', '0', ']']);
        },
    }
}

} // verus!
