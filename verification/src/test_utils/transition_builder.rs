//! Boolean networks from lists of state transitions.
//!
//! A state of a network with `n` variables is a number below `2^n`; variable 0 is the most
//! significant of its `n` bits. A transition changes exactly one variable. From the list of
//! transitions the update function of every variable follows: in a state from which the
//! variable can change, the function gives the changed value, elsewhere the value that the
//! variable has. The functions are written down in disjunctive normal form, in the text
//! format of the network library, and handed to its parser.

use biodivine_lib_param_bn::BooleanNetwork;
use crate::text::{append_number, digits};
use vstd::prelude::*;
use vstd::string::StringExecFns;

verus! {

#[verifier::external_type_specification]
#[verifier::external_body]
pub struct ExBooleanNetwork(BooleanNetwork);

/// A transition from one state to another.
pub type Transition = (u32, u32);

/// Why a list of transitions describes no network.
#[derive(Debug, Clone, PartialEq, Eq)]
pub enum TransitionError {
    /// A state of a transition is not a state of a network with this many variables.
    InvalidState { state: u32, num_vars: usize },
    /// A transition changes more than one variable.
    MultipleVariablesChanged { from: u32, to: u32 },
    /// A transition changes no variable.
    NoVariableChanged { state: u32 },
    /// The parser of the network library refused the model.
    ParseError(String),
}

/// What the parser of the network library makes of a model text.
pub uninterp spec fn parse_outcome(text: Seq<char>) -> Result<BooleanNetwork, Seq<char>>;

/// What the network library makes of a network when it infers the regulations that its
/// update functions bear out.
pub uninterp spec fn inferred_outcome(network: BooleanNetwork) -> Result<BooleanNetwork, Seq<char>>;

/// A text as `Debug` writes it: in quotes, with its special characters escaped.
pub uninterp spec fn debug_text(message: Seq<char>) -> Seq<char>;

/// The text is a model that this module writes for a list of transitions without a fault.
pub open spec fn written(text: Seq<char>) -> bool {
    exists|num_vars: usize, transitions: Seq<Transition>| num_vars < 32 && first_fault(num_vars, transitions) is None && text == #[trigger] model_text(transitions, num_vars)
}

/// `BooleanNetwork::try_from` on a model text that this module has written: the network
/// that the text describes, or the message of the parser.
#[verifier::external_body]
fn parse_model(text: &str) -> (r: Result<BooleanNetwork, String>)
    requires
        written(text@),
    ensures
        match r {
            Ok(network) => parse_outcome(text@) == Ok::<BooleanNetwork, Seq<char>>(network),
            Err(message) => parse_outcome(text@) == Err::<BooleanNetwork, Seq<char>>(message@),
        },
{
    BooleanNetwork::try_from(text)
}

/// `BooleanNetwork::infer_valid_graph` on a network that the parser has made of a model
/// text that this module has written: the network with the regulations that its update
/// functions bear out, or the message of the network library.
#[verifier::external_body]
fn infer_valid_graph(network: &BooleanNetwork) -> (r: Result<BooleanNetwork, String>)
    requires
        exists|text: Seq<char>| written(text) && #[trigger] parse_outcome(text) == Ok::<BooleanNetwork, Seq<char>>(*network),
    ensures
        match r {
            Ok(valid) => inferred_outcome(*network) == Ok::<BooleanNetwork, Seq<char>>(valid),
            Err(message) => inferred_outcome(*network) == Err::<BooleanNetwork, Seq<char>>(message@),
        },
{
    network.infer_valid_graph()
}

/// `Debug` of a `String`, through `format!`: the text as `Debug` writes it.
#[verifier::external_body]
fn debug_string(message: &String) -> (r: String)
    ensures
        r@ == debug_text(message@),
{
    format!("{:?}", message)
}

/// What becomes of a model text: it is parsed, and the regulations of the network are
/// inferred; a message of either step is kept as `Debug` writes it.
pub open spec fn built(text: Seq<char>) -> Result<BooleanNetwork, Seq<char>> {
    match parse_outcome(text) {
        Err(message) => Err(debug_text(message)),
        Ok(network) => match inferred_outcome(network) {
            Ok(valid) => Ok(valid),
            Err(message) => Err(debug_text(message)),
        },
    }
}

/// The bit of `state` at position `shift`, counted from the least significant bit.
pub open spec fn bit_of(state: u32, shift: u32) -> bool {
    (state >> shift) & 1 == 1
}

/// The value of variable `var_idx` in `state`.
pub open spec fn value_of(state: u32, var_idx: usize, num_vars: usize) -> bool {
    bit_of(state, (num_vars - 1 - var_idx) as u32)
}

/// The number with only the bit of variable `var_idx` set.
pub open spec fn mask_of(var_idx: usize, num_vars: usize) -> u32 {
    1u32 << ((num_vars - 1 - var_idx) as u32)
}

/// The greatest state of a network with `num_vars` variables.
pub open spec fn max_state(num_vars: usize) -> u32 {
    ((1u32 << (num_vars as u32)) - 1) as u32
}

/// The value of variable `var_idx` in `state`.
pub fn get_variable_value(state: u32, var_idx: usize, num_vars: usize) -> (r: bool)
    requires
        var_idx < num_vars < 32,
    ensures
        r == value_of(state, var_idx, num_vars),
{
    let shift = (num_vars - 1 - var_idx) as u32;
    (state >> shift) & 1 == 1
}

/// The transition `from -> to` changes variable `var_idx` and no other.
pub open spec fn changes(from: u32, to: u32, var_idx: usize, num_vars: usize) -> bool {
    var_idx < num_vars && from ^ to == mask_of(var_idx, num_vars)
}

/// The variable that the transition changes, if it changes exactly one.
pub open spec fn the_changed(from: u32, to: u32, num_vars: usize) -> usize {
    choose|i: usize| changes(from, to, i, num_vars)
}

/// What is wrong with the transition, or which variable it changes.
pub open spec fn changed_variable(from: u32, to: u32, num_vars: usize) -> Result<usize, TransitionError> {
    if from == to {
        Err(TransitionError::NoVariableChanged { state: from })
    } else if exists|i: usize| changes(from, to, i, num_vars) {
        Ok(the_changed(from, to, num_vars))
    } else {
        Err(TransitionError::MultipleVariablesChanged { from, to })
    }
}

/// Two masks of one network are equal only for the same variable.
pub proof fn lemma_mask_unique(i: usize, j: usize, num_vars: usize)
    requires
        i < num_vars < 32,
        j < num_vars,
        mask_of(i, num_vars) == mask_of(j, num_vars),
    ensures
        i == j,
{
    let a = (num_vars - 1 - i) as u32;
    let b = (num_vars - 1 - j) as u32;
    assert(a < 32 && b < 32 && (1u32 << a) == (1u32 << b) ==> a == b) by (bit_vector);
}

/// The variable that a transition between two states of the network changes, if it changes
/// exactly one.
pub fn find_changed_variable(from: u32, to: u32, num_vars: usize) -> (r: Result<usize, TransitionError>)
    requires
        num_vars < 32,
        from <= max_state(num_vars),
        to <= max_state(num_vars),
    ensures
        r == changed_variable(from, to, num_vars),
        r matches Ok(i) ==> changes(from, to, i, num_vars),
{
    let diff = from ^ to;
    if diff == 0 {
        assert(from ^ to == 0 ==> from == to) by (bit_vector);
        return Err(TransitionError::NoVariableChanged { state: from });
    }
    assert(from != to) by {
        assert(from == to ==> from ^ to == 0) by (bit_vector);
    }
    let mut i: usize = 0;
    while i < num_vars
        invariant
            i <= num_vars < 32,
            diff == from ^ to,
            from != to,
            forall|j: usize| j < i ==> !changes(from, to, j, num_vars),
        decreases num_vars - i,
    {
        let shift = (num_vars - 1 - i) as u32;
        if diff == 1u32 << shift {
            proof {
                assert(changes(from, to, i, num_vars));
                assert forall|j: usize| changes(from, to, j, num_vars) implies j == i by {
                    lemma_mask_unique(i, j, num_vars);
                }
                let c = the_changed(from, to, num_vars);
                assert(changes(from, to, c, num_vars));
                assert(c == i);
            }
            return Ok(i);
        }
        i += 1;
    }
    Err(TransitionError::MultipleVariablesChanged { from, to })
}

/// The first fault of a list of transitions, if it has one: a state that is out of range
/// comes before all else; then the first transition that changes no variable or several.
pub open spec fn first_fault(num_vars: usize, transitions: Seq<Transition>) -> Option<TransitionError> {
    if exists|k: int| 0 <= k < transitions.len() && out_of_range(num_vars, #[trigger] transitions[k]) {
        let k = choose|k: int| 0 <= k < transitions.len() && out_of_range(num_vars, #[trigger] transitions[k]) && forall|m: int| 0 <= m < k ==> !out_of_range(num_vars, #[trigger] transitions[m]);
        if transitions[k].0 > max_state(num_vars) {
            Some(TransitionError::InvalidState { state: transitions[k].0, num_vars })
        } else {
            Some(TransitionError::InvalidState { state: transitions[k].1, num_vars })
        }
    } else if exists|k: int| 0 <= k < transitions.len() && faulty(num_vars, #[trigger] transitions[k]) {
        let k = choose|k: int| 0 <= k < transitions.len() && faulty(num_vars, #[trigger] transitions[k]) && forall|m: int| 0 <= m < k ==> !faulty(num_vars, #[trigger] transitions[m]);
        Some(changed_variable(transitions[k].0, transitions[k].1, num_vars)->Err_0)
    } else {
        None
    }
}

/// A state of the transition is not a state of the network.
pub open spec fn out_of_range(num_vars: usize, t: Transition) -> bool {
    t.0 > max_state(num_vars) || t.1 > max_state(num_vars)
}

/// The transition changes no variable or several.
pub open spec fn faulty(num_vars: usize, t: Transition) -> bool {
    changed_variable(t.0, t.1, num_vars) is Err
}

/// Check a list of transitions: every state in range, every transition changing exactly
/// one variable. The first fault is reported.
pub fn validate(num_vars: usize, transitions: &[Transition]) -> (r: Result<(), TransitionError>)
    requires
        num_vars < 32,
    ensures
        match r {
            Ok(()) => first_fault(num_vars, transitions@) is None,
            Err(e) => first_fault(num_vars, transitions@) == Some(e),
        },
{
    let width = num_vars as u32;
    assert(width < 32 ==> (1u32 << width) >= 1) by (bit_vector);
    let top: u32 = (1u32 << width) - 1;
    let mut k: usize = 0;
    while k < transitions.len()
        invariant
            k <= transitions@.len(),
            top == max_state(num_vars),
            forall|m: int| 0 <= m < k ==> !out_of_range(num_vars, #[trigger] transitions@[m]),
        decreases transitions.len() - k,
    {
        let (from, to) = transitions[k];
        if from > top {
            proof {
                lemma_first(num_vars, transitions@, k as int, true);
            }
            return Err(TransitionError::InvalidState { state: from, num_vars });
        }
        if to > top {
            proof {
                lemma_first(num_vars, transitions@, k as int, true);
            }
            return Err(TransitionError::InvalidState { state: to, num_vars });
        }
        k += 1;
    }
    let mut k: usize = 0;
    while k < transitions.len()
        invariant
            k <= transitions@.len(),
            num_vars < 32,
            forall|m: int| 0 <= m < transitions@.len() ==> !out_of_range(num_vars, #[trigger] transitions@[m]),
            forall|m: int| 0 <= m < k ==> !faulty(num_vars, #[trigger] transitions@[m]),
        decreases transitions.len() - k,
    {
        let (from, to) = transitions[k];
        assert(!out_of_range(num_vars, transitions@[k as int]));
        match find_changed_variable(from, to, num_vars) {
            Ok(_) => {},
            Err(e) => {
                proof {
                    lemma_first(num_vars, transitions@, k as int, false);
                }
                return Err(e);
            },
        }
        k += 1;
    }
    Ok(())
}

/// The least position with a fault of one kind is the position that `first_fault` looks at.
pub proof fn lemma_first(num_vars: usize, transitions: Seq<Transition>, k: int, range: bool)
    requires
        0 <= k < transitions.len(),
        range ==> out_of_range(num_vars, transitions[k]) && forall|m: int| 0 <= m < k ==> !out_of_range(num_vars, #[trigger] transitions[m]),
        !range ==> faulty(num_vars, transitions[k]) && (forall|m: int| 0 <= m < transitions.len() ==> !out_of_range(num_vars, #[trigger] transitions[m])) && forall|m: int| 0 <= m < k ==> !faulty(num_vars, #[trigger] transitions[m]),
    ensures
        range ==> (choose|j: int| 0 <= j < transitions.len() && out_of_range(num_vars, #[trigger] transitions[j]) && forall|m: int| 0 <= m < j ==> !out_of_range(num_vars, #[trigger] transitions[m])) == k,
        !range ==> (choose|j: int| 0 <= j < transitions.len() && faulty(num_vars, #[trigger] transitions[j]) && forall|m: int| 0 <= m < j ==> !faulty(num_vars, #[trigger] transitions[m])) == k,
{
    if range {
        let j = choose|j: int| 0 <= j < transitions.len() && out_of_range(num_vars, #[trigger] transitions[j]) && forall|m: int| 0 <= m < j ==> !out_of_range(num_vars, #[trigger] transitions[m]);
        if j < k {
            assert(!out_of_range(num_vars, transitions[j]));
        }
        if k < j {
            assert(!out_of_range(num_vars, transitions[k]));
        }
    } else {
        let j = choose|j: int| 0 <= j < transitions.len() && faulty(num_vars, #[trigger] transitions[j]) && forall|m: int| 0 <= m < j ==> !faulty(num_vars, #[trigger] transitions[m]);
        if j < k {
            assert(!faulty(num_vars, transitions[j]));
        }
        if k < j {
            assert(!faulty(num_vars, transitions[k]));
        }
    }
}

/// The value that the update function of variable `i` has in state `s`: the changed value
/// if a listed transition from `s` changes the variable, else the value that it has.
pub open spec fn next_value(transitions: Seq<Transition>, num_vars: usize, i: usize, s: u32) -> bool {
    if exists|k: int| 0 <= k < transitions.len() && (#[trigger] transitions[k]).0 == s && changes(s, transitions[k].1, i, num_vars) {
        !value_of(s, i, num_vars)
    } else {
        value_of(s, i, num_vars)
    }
}

/// The number of states of a network with `num_vars` variables.
pub open spec fn state_count(num_vars: usize) -> nat {
    max_state(num_vars) as nat + 1
}

/// The truth table of the update function of variable `i`.
pub open spec fn row_of(transitions: Seq<Transition>, num_vars: usize, i: usize) -> Seq<bool> {
    Seq::new(state_count(num_vars), |s: int| next_value(transitions, num_vars, i, s as u32))
}

/// A transition that changes a variable gives it the value that it does not have.
pub proof fn lemma_changed_value(from: u32, to: u32, i: usize, num_vars: usize)
    requires
        num_vars < 32,
        changes(from, to, i, num_vars),
    ensures
        value_of(to, i, num_vars) == !value_of(from, i, num_vars),
{
    let sh = (num_vars - 1 - i) as u32;
    assert(sh < 32 && from ^ to == (1u32 << sh) ==> (((to >> sh) & 1 == 1) == !((from >> sh) & 1 == 1))) by (bit_vector);
}

/// The truth table of the update function of variable `i`, for a list of transitions
/// without fault.
pub fn update_row(num_vars: usize, transitions: &[Transition], i: usize) -> (r: Vec<bool>)
    requires
        i < num_vars < 32,
        first_fault(num_vars, transitions@) is None,
    ensures
        r@ == row_of(transitions@, num_vars, i),
{
    let width = num_vars as u32;
    assert(width < 32 ==> (1u32 << width) >= 1) by (bit_vector);
    let top: u32 = (1u32 << width) - 1;
    let size: usize = top as usize + 1;
    let mut row: Vec<bool> = Vec::new();
    let mut s: usize = 0;
    // Unless a transition says otherwise, the variable keeps its value.
    while s < size
        invariant
            s <= size,
            size == state_count(num_vars),
            i < num_vars < 32,
            row@.len() == s,
            forall|a: int| 0 <= a < s ==> #[trigger] row@[a] == value_of(a as u32, i, num_vars),
        decreases size - s,
    {
        row.push(get_variable_value(s as u32, i, num_vars));
        s += 1;
    }
    assert forall|a: int| 0 <= a < row@.len() implies #[trigger] row@[a] == next_value(transitions@.subrange(0, 0), num_vars, i, a as u32) by {
    }
    let mut k: usize = 0;
    while k < transitions.len()
        invariant
            k <= transitions@.len(),
            i < num_vars < 32,
            top == max_state(num_vars),
            first_fault(num_vars, transitions@) is None,
            row@.len() == state_count(num_vars),
            forall|a: int| 0 <= a < row@.len() ==> #[trigger] row@[a] == next_value(transitions@.subrange(0, k as int), num_vars, i, a as u32),
        decreases transitions.len() - k,
    {
        let (from, to) = transitions[k];
        let ghost before = transitions@.subrange(0, k as int);
        let ghost after = transitions@.subrange(0, k + 1);
        proof {
            assert(!out_of_range(num_vars, transitions@[k as int]));
            assert(!faulty(num_vars, transitions@[k as int]));
            assert(after =~= before.push((from, to)));
        }
        match find_changed_variable(from, to, num_vars) {
            Ok(var_idx) => {
                if var_idx == i {
                    let new_value = get_variable_value(to, var_idx, num_vars);
                    proof {
                        lemma_changed_value(from, to, i, num_vars);
                        assert(after[k as int] == (from, to));
                    }
                    row.set(from as usize, new_value);
                }
                proof {
                    assert forall|a: int| 0 <= a < row@.len() implies #[trigger] row@[a] == next_value(after, num_vars, i, a as u32) by {
                        let s = a as u32;
                        if next_value(before, num_vars, i, s) != value_of(s, i, num_vars) {
                            let m = choose|m: int| 0 <= m < before.len() && (#[trigger] before[m]).0 == s && changes(s, before[m].1, i, num_vars);
                            assert(after[m] == before[m]);
                        }
                        if next_value(after, num_vars, i, s) != value_of(s, i, num_vars) {
                            let m = choose|m: int| 0 <= m < after.len() && (#[trigger] after[m]).0 == s && changes(s, after[m].1, i, num_vars);
                            if m < k {
                                assert(before[m] == after[m]);
                            } else {
                                assert(var_idx == i) by {
                                    lemma_mask_unique(i, var_idx, num_vars);
                                }
                            }
                        }
                    }
                }
            },
            Err(_) => {},
        }
        k += 1;
    }
    assert(transitions@.subrange(0, k as int) =~= transitions@);
    assert(row@ =~= row_of(transitions@, num_vars, i));
    row
}

/// Variable `j` matters to the function with the truth table `row`: flipping it changes
/// the value of the function in some state.
pub open spec fn essential(row: Seq<bool>, num_vars: usize, j: usize) -> bool {
    exists|a: u32| a <= max_state(num_vars) && #[trigger] row[a as int] != row[(a ^ mask_of(j, num_vars)) as int]
}

/// Flipping a variable of a state gives a state.
pub proof fn lemma_flip_in_range(a: u32, j: usize, num_vars: usize)
    requires
        j < num_vars < 32,
        a <= max_state(num_vars),
    ensures
        a ^ mask_of(j, num_vars) <= max_state(num_vars),
{
    let sh = (num_vars - 1 - j) as u32;
    let w = num_vars as u32;
    assert(w < 32 ==> (1u32 << w) >= 1) by (bit_vector);
    assert(sh < w && w < 32 && a < (1u32 << w) ==> (a ^ (1u32 << sh)) < (1u32 << w)) by (bit_vector);
}

/// Whether variable `j` matters to the function with the truth table `row`.
pub fn is_essential(row: &Vec<bool>, num_vars: usize, j: usize) -> (r: bool)
    requires
        j < num_vars < 32,
        row@.len() == state_count(num_vars),
    ensures
        r == essential(row@, num_vars, j),
{
    let width = num_vars as u32;
    assert(width < 32 ==> (1u32 << width) >= 1) by (bit_vector);
    let top: u32 = (1u32 << width) - 1;
    let flip_mask: u32 = 1u32 << ((num_vars - 1 - j) as u32);
    let mut a: u32 = 0;
    loop
        invariant
            a <= top,
            top == max_state(num_vars),
            j < num_vars < 32,
            flip_mask == mask_of(j, num_vars),
            row@.len() == state_count(num_vars),
            forall|b: u32| b < a ==> #[trigger] row@[b as int] == row@[(b ^ mask_of(j, num_vars)) as int],
        decreases top - a,
    {
        proof {
            lemma_flip_in_range(a, j, num_vars);
        }
        if row[a as usize] != row[(a ^ flip_mask) as usize] {
            return true;
        }
        if a == top {
            return false;
        }
        a += 1;
    }
}

/// The flags of the variables that matter to the function with the truth table `row`.
pub open spec fn essential_flags(row: Seq<bool>, num_vars: usize) -> Seq<bool> {
    Seq::new(num_vars as nat, |j: int| essential(row, num_vars, j as usize))
}

/// The flags of the variables that matter to the function with the truth table `row`.
pub fn find_essential(row: &Vec<bool>, num_vars: usize) -> (r: Vec<bool>)
    requires
        num_vars < 32,
        row@.len() == state_count(num_vars),
    ensures
        r@ == essential_flags(row@, num_vars),
{
    let mut flags: Vec<bool> = Vec::new();
    let mut j: usize = 0;
    while j < num_vars
        invariant
            j <= num_vars < 32,
            row@.len() == state_count(num_vars),
            flags@.len() == j,
            forall|m: int| 0 <= m < j ==> #[trigger] flags@[m] == essential(row@, num_vars, m as usize),
        decreases num_vars - j,
    {
        flags.push(is_essential(row, num_vars, j));
        j += 1;
    }
    assert(flags@ =~= essential_flags(row@, num_vars));
    flags
}

/// The function with the truth table `row` is constant: `Some` of its value, or `None`.
/// A function on which no variable has any influence counts as constant, with the value
/// that it has in state 0.
pub open spec fn constant_of(row: Seq<bool>, num_vars: usize) -> Option<bool> {
    if forall|a: int| 0 <= a < row.len() ==> !#[trigger] row[a] {
        Some(false)
    } else if forall|a: int| 0 <= a < row.len() ==> #[trigger] row[a] {
        Some(true)
    } else if forall|j: int| 0 <= j < num_vars ==> !#[trigger] essential_flags(row, num_vars)[j] {
        Some(row[0])
    } else {
        None
    }
}

/// Whether the function with the truth table `row` is constant, and with which value.
pub fn find_constant(row: &Vec<bool>, flags: &Vec<bool>, num_vars: usize) -> (r: Option<bool>)
    requires
        num_vars < 32,
        row@.len() == state_count(num_vars),
        flags@ == essential_flags(row@, num_vars),
    ensures
        r == constant_of(row@, num_vars),
{
    let mut any_true = false;
    let mut any_false = false;
    let mut a: usize = 0;
    while a < row.len()
        invariant
            a <= row@.len(),
            any_true == (exists|b: int| 0 <= b < a && #[trigger] row@[b]),
            any_false == (exists|b: int| 0 <= b < a && !#[trigger] row@[b]),
        decreases row.len() - a,
    {
        if row[a] {
            any_true = true;
        } else {
            any_false = true;
        }
        a += 1;
    }
    if !any_true {
        return Some(false);
    }
    if !any_false {
        return Some(true);
    }
    let mut j: usize = 0;
    while j < num_vars
        invariant
            j <= num_vars,
            flags@.len() == num_vars,
            flags@ == essential_flags(row@, num_vars),
            exists|b: int| 0 <= b < row@.len() && #[trigger] row@[b],
            exists|c: int| 0 <= c < row@.len() && !#[trigger] row@[c],
            forall|m: int| 0 <= m < j ==> !#[trigger] flags@[m],
        decreases num_vars - j,
    {
        if flags[j] {
            proof {
                assert(essential_flags(row@, num_vars)[j as int]);
                let b = choose|b: int| 0 <= b < row@.len() && #[trigger] row@[b];
                let c = choose|c: int| 0 <= c < row@.len() && !#[trigger] row@[c];
            }
            return None;
        }
        j += 1;
    }
    proof {
        let b = choose|b: int| 0 <= b < row@.len() && #[trigger] row@[b];
        let c = choose|c: int| 0 <= c < row@.len() && !#[trigger] row@[c];
    }
    Some(row[0])
}

/// The name of variable `i`: `x` and its number.
pub open spec fn name_of(i: nat) -> Seq<char> {
    seq!['x'] + digits(i)
}

/// `acc` with `item` added, and `sep` between them unless `acc` is empty.
pub open spec fn joined(acc: Seq<char>, sep: Seq<char>, item: Seq<char>) -> Seq<char> {
    if acc.len() == 0 {
        item
    } else {
        acc + sep + item
    }
}

/// The names of the variables of a network with `num_vars` variables.
pub fn generate_var_names(num_vars: usize) -> (r: Vec<String>)
    ensures
        r@.len() == num_vars,
        forall|i: int| 0 <= i < num_vars ==> (#[trigger] r@[i])@ == name_of(i as nat),
{
    let mut names: Vec<String> = Vec::new();
    let mut i: usize = 0;
    while i < num_vars
        invariant
            i <= num_vars,
            names@.len() == i,
            forall|m: int| 0 <= m < i ==> (#[trigger] names@[m])@ == name_of(m as nat),
        decreases num_vars - i,
    {
        let mut name = String::from_str("x");
        proof {
            reveal_strlit("x");
            assert("x"@ =~= seq!['x']);
        }
        append_number(&mut name, i);
        names.push(name);
        i += 1;
    }
    names
}

/// Add `sep` to a text unless the text is empty.
fn separate(text: &mut String, sep: &str)
    ensures
        forall|item: Seq<char>| #[trigger] joined(old(text)@, sep@, item) == final(text)@ + item,
{
    if !text.as_str().is_empty() {
        text.append(sep);
    } else {
        assert forall|item: Seq<char>| #[trigger] joined(old(text)@, sep@, item) == text@ + item by {
            assert(text@ + item =~= item);
        }
    }
}

/// The literals of the variables that matter, among the first `k`, for state `s`, joined
/// by `&`: a variable that is false in `s` is negated.
pub open spec fn term_body(num_vars: usize, flags: Seq<bool>, s: u32, k: nat) -> Seq<char>
    decreases k,
{
    if k == 0 {
        Seq::empty()
    } else {
        let prev = term_body(num_vars, flags, s, (k - 1) as nat);
        if flags[k - 1] {
            joined(prev, " & "@, literal((k - 1) as nat, value_of(s, (k - 1) as usize, num_vars)))
        } else {
            prev
        }
    }
}

/// The literal of variable `j` with the given value.
pub open spec fn literal(j: nat, value: bool) -> Seq<char> {
    if value {
        name_of(j)
    } else {
        "!"@ + name_of(j)
    }
}

/// The term of state `s`: its literals in brackets.
pub open spec fn term_of(num_vars: usize, flags: Seq<bool>, s: u32) -> Seq<char> {
    "("@ + term_body(num_vars, flags, s, num_vars as nat) + ")"@
}

/// State `s` stands for all states that agree with it on the variables that matter: the
/// variables that do not matter are false in it.
pub open spec fn representative(num_vars: usize, flags: Seq<bool>, s: u32) -> bool {
    forall|j: int| 0 <= j < num_vars && !flags[j] ==> !#[trigger] value_of(s, j as usize, num_vars)
}

/// The terms of the representative states, among the first `k` states, in which the
/// function is true, joined by `|`.
pub open spec fn terms_of(num_vars: usize, row: Seq<bool>, flags: Seq<bool>, k: nat) -> Seq<char>
    decreases k,
{
    if k == 0 {
        Seq::empty()
    } else {
        let prev = terms_of(num_vars, row, flags, (k - 1) as nat);
        if row[k - 1] && representative(num_vars, flags, (k - 1) as u32) {
            joined(prev, " | "@, term_of(num_vars, flags, (k - 1) as u32))
        } else {
            prev
        }
    }
}

/// The disjunctive normal form of the function with the truth table `row`: `0` or `1` for a
/// constant function, else the terms over the variables that matter.
pub open spec fn dnf_of(num_vars: usize, row: Seq<bool>) -> Seq<char> {
    match constant_of(row, num_vars) {
        Some(false) => "0"@,
        Some(true) => "1"@,
        None => terms_of(num_vars, row, essential_flags(row, num_vars), row.len()),
    }
}

/// Whether state `s` is the representative of the states that agree with it on the
/// variables that matter.
fn is_representative(num_vars: usize, flags: &Vec<bool>, s: u32) -> (r: bool)
    requires
        num_vars < 32,
        flags@.len() == num_vars,
    ensures
        r == representative(num_vars, flags@, s),
{
    let mut j: usize = 0;
    while j < num_vars
        invariant
            j <= num_vars < 32,
            flags@.len() == num_vars,
            forall|m: int| 0 <= m < j && !flags@[m] ==> !#[trigger] value_of(s, m as usize, num_vars),
        decreases num_vars - j,
    {
        if !flags[j] && get_variable_value(s, j, num_vars) {
            proof {
                let m = j as int;
                assert(!flags@[m] && value_of(s, m as usize, num_vars));
            }
            return false;
        }
        j += 1;
    }
    true
}

/// The term of a state.
fn write_term(num_vars: usize, flags: &Vec<bool>, s: u32, var_names: &Vec<String>) -> (r: String)
    requires
        num_vars < 32,
        flags@.len() == num_vars,
        var_names@.len() == num_vars,
        forall|i: int| 0 <= i < num_vars ==> (#[trigger] var_names@[i])@ == name_of(i as nat),
    ensures
        r@ == term_of(num_vars, flags@, s),
{
    let mut body = String::from_str("");
    proof {
        reveal_strlit("");
        assert(body@ =~= term_body(num_vars, flags@, s, 0));
    }
    let mut j: usize = 0;
    while j < num_vars
        invariant
            j <= num_vars < 32,
            flags@.len() == num_vars,
            var_names@.len() == num_vars,
            forall|i: int| 0 <= i < num_vars ==> (#[trigger] var_names@[i])@ == name_of(i as nat),
            body@ == term_body(num_vars, flags@, s, j as nat),
        decreases num_vars - j,
    {
        if flags[j] {
            let mut part = String::from_str("");
            proof {
                reveal_strlit("");
            }
            if !get_variable_value(s, j, num_vars) {
                part.append("!");
            }
            part.append(var_names[j].as_str());
            assert(part@ =~= literal(j as nat, value_of(s, j, num_vars)));
            separate(&mut body, " & ");
            body.append(part.as_str());
        }
        j += 1;
    }
    let mut term = String::from_str("(");
    term.append(body.as_str());
    term.append(")");
    term
}

/// The disjunctive normal form of the function with the given truth table.
pub fn states_to_dnf(row: &Vec<bool>, num_vars: usize, var_names: &Vec<String>) -> (r: String)
    requires
        num_vars < 32,
        row@.len() == state_count(num_vars),
        var_names@.len() == num_vars,
        forall|i: int| 0 <= i < num_vars ==> (#[trigger] var_names@[i])@ == name_of(i as nat),
    ensures
        r@ == dnf_of(num_vars, row@),
{
    let flags = find_essential(row, num_vars);
    match find_constant(row, &flags, num_vars) {
        Some(false) => {
            return String::from_str("0");
        },
        Some(true) => {
            return String::from_str("1");
        },
        None => {},
    }
    let mut text = String::from_str("");
    proof {
        reveal_strlit("");
        assert(text@ =~= terms_of(num_vars, row@, flags@, 0));
    }
    let mut s: usize = 0;
    while s < row.len()
        invariant
            s <= row@.len(),
            num_vars < 32,
            row@.len() == state_count(num_vars),
            flags@ == essential_flags(row@, num_vars),
            var_names@.len() == num_vars,
            forall|i: int| 0 <= i < num_vars ==> (#[trigger] var_names@[i])@ == name_of(i as nat),
            text@ == terms_of(num_vars, row@, flags@, s as nat),
        decreases row.len() - s,
    {
        if row[s] && is_representative(num_vars, &flags, s as u32) {
            let term = write_term(num_vars, &flags, s as u32, var_names);
            separate(&mut text, " | ");
            text.append(term.as_str());
        }
        s += 1;
    }
    text
}

/// `acc` with the regulations of variable `i` by the variables that matter to it, among
/// the first `k`, one on a line.
pub open spec fn with_regulations(acc: Seq<char>, i: nat, flags: Seq<bool>, k: nat) -> Seq<char>
    decreases k,
{
    if k == 0 {
        acc
    } else {
        let prev = with_regulations(acc, i, flags, (k - 1) as nat);
        if flags[k - 1] {
            joined(prev, "\n"@, name_of((k - 1) as nat) + " -? "@ + name_of(i))
        } else {
            prev
        }
    }
}

/// `acc` with the regulations of variable `i`: by itself if its function is constant, else
/// by the variables that matter to its function.
pub open spec fn with_variable(acc: Seq<char>, num_vars: usize, i: nat, row: Seq<bool>) -> Seq<char> {
    if constant_of(row, num_vars) is Some {
        joined(acc, "\n"@, name_of(i) + " -? "@ + name_of(i))
    } else {
        with_regulations(acc, i, essential_flags(row, num_vars), num_vars as nat)
    }
}

/// The regulations of the first `k` variables, one on a line.
pub open spec fn regulations_of(transitions: Seq<Transition>, num_vars: usize, k: nat) -> Seq<char>
    decreases k,
{
    if k == 0 {
        Seq::empty()
    } else {
        with_variable(regulations_of(transitions, num_vars, (k - 1) as nat), num_vars, (k - 1) as nat, row_of(transitions, num_vars, (k - 1) as usize))
    }
}

/// The regulations of all variables, followed by the update functions of the first `k`
/// variables, one on a line.
pub open spec fn model_upto(transitions: Seq<Transition>, num_vars: usize, k: nat) -> Seq<char>
    decreases k,
{
    if k == 0 {
        regulations_of(transitions, num_vars, num_vars as nat)
    } else {
        joined(model_upto(transitions, num_vars, (k - 1) as nat), "\n"@, "$"@ + name_of((k - 1) as nat) + ": "@ + dnf_of(num_vars, row_of(transitions, num_vars, (k - 1) as usize)))
    }
}

/// The model of the network with the given transitions, in the text format of the network
/// library: a regulation for every variable that matters to a function, then the functions.
pub open spec fn model_text(transitions: Seq<Transition>, num_vars: usize) -> Seq<char> {
    model_upto(transitions, num_vars, num_vars as nat)
}

/// A regulation line.
fn write_regulation(source: &String, target: &String) -> (r: String)
    ensures
        r@ == source@ + " -? "@ + target@,
{
    let mut line = String::from_str("");
    proof {
        reveal_strlit("");
    }
    line.append(source.as_str());
    line.append(" -? ");
    line.append(target.as_str());
    assert(line@ =~= source@ + " -? "@ + target@);
    line
}

/// The model text of the network with the given transitions, which are without fault.
pub fn write_model(num_vars: usize, transitions: &[Transition]) -> (r: String)
    requires
        num_vars < 32,
        first_fault(num_vars, transitions@) is None,
    ensures
        r@ == model_text(transitions@, num_vars),
{
    let var_names = generate_var_names(num_vars);
    let mut text = String::from_str("");
    proof {
        reveal_strlit("");
        assert(text@ =~= regulations_of(transitions@, num_vars, 0));
    }
    // The regulations: a function depends on the variables that appear in its normal form.
    let mut i: usize = 0;
    while i < num_vars
        invariant
            i <= num_vars < 32,
            first_fault(num_vars, transitions@) is None,
            var_names@.len() == num_vars,
            forall|m: int| 0 <= m < num_vars ==> (#[trigger] var_names@[m])@ == name_of(m as nat),
            text@ == regulations_of(transitions@, num_vars, i as nat),
        decreases num_vars - i,
    {
        let row = update_row(num_vars, transitions, i);
        let flags = find_essential(&row, num_vars);
        let ghost start = text@;
        if find_constant(&row, &flags, num_vars).is_some() {
            // A constant function gets a regulation by its own variable.
            let line = write_regulation(&var_names[i], &var_names[i]);
            separate(&mut text, "\n");
            text.append(line.as_str());
        } else {
            let mut j: usize = 0;
            while j < num_vars
                invariant
                    j <= num_vars,
                    i < num_vars,
                    flags@ == essential_flags(row@, num_vars),
                    var_names@.len() == num_vars,
                    forall|m: int| 0 <= m < num_vars ==> (#[trigger] var_names@[m])@ == name_of(m as nat),
                    text@ == with_regulations(start, i as nat, flags@, j as nat),
                decreases num_vars - j,
            {
                if flags[j] {
                    let line = write_regulation(&var_names[j], &var_names[i]);
                    separate(&mut text, "\n");
                    text.append(line.as_str());
                }
                j += 1;
            }
        }
        i += 1;
    }
    // The update functions.
    let mut i: usize = 0;
    while i < num_vars
        invariant
            i <= num_vars < 32,
            first_fault(num_vars, transitions@) is None,
            var_names@.len() == num_vars,
            forall|m: int| 0 <= m < num_vars ==> (#[trigger] var_names@[m])@ == name_of(m as nat),
            text@ == model_upto(transitions@, num_vars, i as nat),
        decreases num_vars - i,
    {
        let row = update_row(num_vars, transitions, i);
        let dnf = states_to_dnf(&row, num_vars, &var_names);
        let mut line = String::from_str("$");
        line.append(var_names[i].as_str());
        line.append(": ");
        line.append(dnf.as_str());
        assert(line@ =~= "$"@ + name_of(i as nat) + ": "@ + dnf_of(num_vars, row@));
        separate(&mut text, "\n");
        text.append(line.as_str());
        i += 1;
    }
    text
}

/// What `from_transitions` makes of a list of transitions: the first fault of the list, or
/// what the parser makes of the model text.
pub open spec fn outcome(num_vars: usize, transitions: Seq<Transition>, r: Result<BooleanNetwork, TransitionError>) -> bool {
    match first_fault(num_vars, transitions) {
        Some(fault) => r == Err::<BooleanNetwork, TransitionError>(fault),
        None => match built(model_text(transitions, num_vars)) {
            Ok(network) => r == Ok::<BooleanNetwork, TransitionError>(network),
            Err(message) => r matches Err(TransitionError::ParseError(text)) && text@ == message,
        },
    }
}

/// The Boolean network whose asynchronous state-transition graph has exactly the listed
/// transitions. The list is refused if a state is out of range for the number of
/// variables, or if a transition changes no variable or more than one.
pub fn from_transitions(num_vars: usize, transitions: &[Transition]) -> (r: Result<BooleanNetwork, TransitionError>)
    requires
        num_vars < 32,
    ensures
        outcome(num_vars, transitions@, r),
{
    match validate(num_vars, transitions) {
        Ok(()) => {},
        Err(fault) => {
            return Err(fault);
        },
    }
    let aeon_model = write_model(num_vars, transitions);
    assert(written(aeon_model@)) by {
        assert(aeon_model@ == model_text(transitions@, num_vars));
    }
    match parse_model(aeon_model.as_str()) {
        Err(message) => Err(TransitionError::ParseError(debug_string(&message))),
        Ok(network) => match infer_valid_graph(&network) {
            Ok(valid) => Ok(valid),
            Err(message) => Err(TransitionError::ParseError(debug_string(&message))),
        },
    }
}

} // verus!
