//! The interactive driver's decision logic.
//!
//! The program state owns one memory manager, built from the command-line
//! arguments, and the parser turns the whitespace-separated tokens of an
//! input line into a directive: `allocate <name> <size>`, `free <name>`,
//! `show` or `exit`, matched case-insensitively. Reading lines, splitting
//! them into tokens and printing results or error messages is the
//! surrounding program's business; every decision is made here.

use vstd::prelude::*;

use crate::free_lists::{chunk_seq, free_lists_insert_all};
use crate::memory_manager::MemoryManager;
use crate::symbols::SymbolData;

verus! {

/// The program's state: the managed memory, the configured capacity, and
/// whether exit was requested.
pub struct ProgramState {
    pub manager: MemoryManager,
    pub allocated_memory: usize,
    pub exit: bool,
}

/// The ways reading the program's input can fail.
#[derive(Debug, PartialEq)]
pub enum ProgramError {
    InvalidArgs,
    NotEnoughArgs,
    InvalidAction(String),
    InvalidActionArgs(Vec<String>),
    /// Too few arguments for the directive: (given, expected).
    NotEnoughActionArgs(usize, usize),
}

/// A parsed directive.
#[derive(Debug, PartialEq)]
pub enum ProgramAction {
    Show,
    Exit,
    Allocate(String, usize),
    Free(String),
}

/// `c` spells `k` up to ASCII case; `k` is the lower-case reference letter.
pub open spec fn char_lower_eq(c: char, k: char) -> bool {
    c == k || (65 <= c as u32 <= 90 && k as u32 == c as u32 + 32)
}

/// The token spells the lower-case ASCII keyword, case-insensitively.
pub open spec fn matches_keyword(s: Seq<char>, kw: Seq<char>) -> bool {
    s.len() == kw.len() && forall|i: int| 0 <= i < s.len() ==> char_lower_eq(#[trigger] s[i], kw[i])
}

/// `c` is a decimal digit.
pub open spec fn spec_is_digit(c: char) -> bool {
    48 <= c as u32 <= 57
}

/// The value of a decimal digit.
pub open spec fn spec_digit_val(c: char) -> int {
    c as u32 - 48
}

/// The value of a string of decimal digits, most significant first.
pub open spec fn spec_dec_val(s: Seq<char>) -> int
    decreases s.len(),
{
    if s.len() == 0 {
        0
    } else {
        spec_dec_val(s.drop_last()) * 10 + spec_digit_val(s.last())
    }
}

pub open spec fn spec_all_digits(s: Seq<char>) -> bool {
    forall|i: int| 0 <= i < s.len() ==> spec_is_digit(#[trigger] s[i])
}

/// The digits of a numeric argument: everything after an optional
/// leading `+` sign.
pub open spec fn spec_size_digits(s: Seq<char>) -> Seq<char> {
    if s.len() >= 1 && s[0] == '+' {
        s.drop_first()
    } else {
        s
    }
}

/// A well-formed size or capacity argument: an optional leading `+` sign,
/// then one or more decimal digits whose value fits the machine's word —
/// the strings `usize`'s own parser accepts.
pub open spec fn spec_valid_size(s: Seq<char>) -> bool {
    let ds = spec_size_digits(s);
    ds.len() >= 1 && spec_all_digits(ds) && spec_dec_val(ds) <= usize::MAX
}

/// The value of a well-formed size or capacity argument.
pub open spec fn spec_size_val(s: Seq<char>) -> int {
    spec_dec_val(spec_size_digits(s))
}

pub proof fn lemma_dec_val_nonneg(s: Seq<char>)
    requires
        spec_all_digits(s),
    ensures
        spec_dec_val(s) >= 0,
    decreases s.len(),
{
    if s.len() > 0 {
        assert forall|i: int| 0 <= i < s.drop_last().len() implies spec_is_digit(
            #[trigger] s.drop_last()[i],
        ) by {
            assert(s.drop_last()[i] == s[i]);
        }
        lemma_dec_val_nonneg(s.drop_last());
        assert(spec_is_digit(s[s.len() - 1]));
    }
}

/// For digit strings the value of a prefix never exceeds the whole value.
pub proof fn lemma_dec_val_prefix(s: Seq<char>, k: int)
    requires
        spec_all_digits(s),
        0 <= k <= s.len(),
    ensures
        spec_dec_val(s.take(k)) <= spec_dec_val(s),
    decreases s.len() - k,
{
    if k < s.len() {
        assert forall|i: int| 0 <= i < s.take(k).len() implies spec_is_digit(
            #[trigger] s.take(k)[i],
        ) by {
            assert(s.take(k)[i] == s[i]);
        }
        lemma_dec_val_nonneg(s.take(k));
        assert(s.take(k + 1).drop_last() =~= s.take(k));
        assert(s.take(k + 1).last() == s[k]);
        assert(spec_is_digit(s[k]));
        assert(spec_dec_val(s.take(k + 1)) == spec_dec_val(s.take(k)) * 10 + spec_digit_val(s[k]));
        lemma_dec_val_prefix(s, k + 1);
    } else {
        assert(s.take(k) =~= s);
    }
}

/// Case-insensitive comparison of a token against a lower-case ASCII
/// keyword.
fn token_matches(token: &String, kw: &str) -> (r: bool)
    ensures
        r == matches_keyword(token@, kw@),
{
    let t = token.as_str();
    let n = t.unicode_len();
    let m = kw.unicode_len();
    if n != m {
        return false;
    }
    let mut i: usize = 0;
    while i < n
        invariant
            i <= n,
            n == token@.len(),
            n == kw@.len(),
            t@ == token@,
            forall|j: int| 0 <= j < i ==> char_lower_eq(#[trigger] token@[j], kw@[j]),
        decreases n - i,
    {
        let c = t.get_char(i);
        let k = kw.get_char(i);
        let cu = c as u32;
        let ku = k as u32;
        if !(cu == ku || (65 <= cu && cu <= 90 && ku == cu + 32)) {
            proof {
                assert(!char_lower_eq(token@[i as int], kw@[i as int]));
            }
            return false;
        }
        i = i + 1;
    }
    true
}

/// Parse a size or capacity argument: an optional leading `+` sign, then
/// one or more decimal digits whose value fits in `usize`.
fn parse_size(token: &String) -> (r: Option<usize>)
    ensures
        match r {
            Some(v) => spec_valid_size(token@) && v as int == spec_size_val(token@),
            None => !spec_valid_size(token@),
        },
{
    let t = token.as_str();
    let n = t.unicode_len();
    if n == 0 {
        return None;
    }
    let start: usize = if t.get_char(0) == '+' {
        1
    } else {
        0
    };
    let ghost ds = spec_size_digits(token@);
    proof {
        assert(ds =~= token@.skip(start as int));
    }
    if n == start {
        // a sign alone carries no digits
        return None;
    }
    let mut acc: usize = 0;
    let mut i: usize = start;
    while i < n
        invariant
            start <= i <= n,
            n == token@.len(),
            t@ == token@,
            ds == spec_size_digits(token@),
            ds == token@.skip(start as int),
            ds.len() == n - start,
            spec_all_digits(ds.take(i - start)),
            acc as int == spec_dec_val(ds.take(i - start)),
        decreases n - i,
    {
        let ghost k: int = i - start;
        let c = t.get_char(i);
        let cu = c as u32;
        proof {
            assert(ds[k] == token@[i as int]);
        }
        if cu < 48 || cu > 57 {
            proof {
                assert(!spec_is_digit(ds[k]));
            }
            return None;
        }
        let d = (cu - 48) as usize;
        proof {
            assert(ds.take(k + 1).drop_last() =~= ds.take(k));
            assert(ds.take(k + 1).last() == ds[k]);
            assert forall|j: int| 0 <= j < k + 1 implies spec_is_digit(
                #[trigger] ds.take(k + 1)[j],
            ) by {
                assert(ds.take(k + 1)[j] == ds[j]);
                if j < k {
                    assert(ds.take(k)[j] == ds[j]);
                }
            }
        }
        if acc > (usize::MAX - d) / 10 {
            proof {
                assert(spec_dec_val(ds.take(k + 1)) == acc * 10 + d);
                assert(acc * 10 + d > usize::MAX);
                if spec_all_digits(ds) {
                    lemma_dec_val_prefix(ds, k + 1);
                }
            }
            return None;
        }
        acc = acc * 10 + d;
        i = i + 1;
    }
    proof {
        assert(ds.take(n - start) =~= ds);
    }
    Some(acc)
}

/// Clone the tokens from position `from` on: the directive's arguments.
fn clone_rest(tokens: &Vec<String>, from: usize) -> (r: Vec<String>)
    requires
        from <= tokens@.len(),
    ensures
        r@ == tokens@.skip(from as int),
{
    let mut rest: Vec<String> = Vec::new();
    let mut i: usize = from;
    while i < tokens.len()
        invariant
            from <= i <= tokens@.len(),
            rest@ == tokens@.subrange(from as int, i as int),
        decreases tokens@.len() - i,
    {
        let ghost pre = rest@;
        rest.push(tokens[i].clone());
        proof {
            assert(rest@ =~= tokens@.subrange(from as int, i as int + 1));
        }
        i = i + 1;
    }
    proof {
        assert(rest@ =~= tokens@.skip(from as int));
    }
    rest
}

/// Parse the arguments of an `allocate` directive: a name and a size.
fn parse_allocation(args: Vec<String>) -> (r: Result<ProgramAction, ProgramError>)
    ensures
        args@.len() < 2 ==> r == Err::<ProgramAction, ProgramError>(
            ProgramError::NotEnoughActionArgs(args@.len() as usize, 2),
        ),
        args@.len() >= 2 && spec_valid_size(args@[1]@) ==> (r matches Ok(a) && a
            == ProgramAction::Allocate(args@[0], spec_size_val(args@[1]@) as usize)),
        args@.len() >= 2 && !spec_valid_size(args@[1]@) ==> r == Err::<ProgramAction, ProgramError>(
            ProgramError::InvalidActionArgs(args),
        ),
{
    if args.len() < 2 {
        return Err(ProgramError::NotEnoughActionArgs(args.len(), 2));
    }
    let size = match parse_size(&args[1]) {
        None => {
            return Err(ProgramError::InvalidActionArgs(args));
        },
        Some(v) => v,
    };
    let name = args[0].clone();
    proof {
        assert(spec_size_val(args@[1]@) as usize as int == spec_size_val(args@[1]@));
    }
    Ok(ProgramAction::Allocate(name, size))
}

/// Parse the arguments of a `free` directive: a name.
fn parse_free(args: Vec<String>) -> (r: Result<ProgramAction, ProgramError>)
    ensures
        args@.len() < 1 ==> r == Err::<ProgramAction, ProgramError>(
            ProgramError::NotEnoughActionArgs(0, 1),
        ),
        args@.len() >= 1 ==> (r matches Ok(a) && a == ProgramAction::Free(args@[0])),
{
    if args.len() < 1 {
        Err(ProgramError::NotEnoughActionArgs(0, 1))
    } else {
        Ok(ProgramAction::Free(args[0].clone()))
    }
}

impl ProgramState {
    /// Build the program's state from the command-line arguments: the
    /// argument after the program name is the capacity, a decimal number.
    pub fn new(args: &Vec<String>) -> (r: Result<ProgramState, ProgramError>)
        ensures
            args@.len() < 2 ==> r == Err::<ProgramState, ProgramError>(ProgramError::NotEnoughArgs),
            args@.len() >= 2 && !spec_valid_size(args@[1]@) ==> r == Err::<
                ProgramState,
                ProgramError,
            >(ProgramError::InvalidArgs),
            args@.len() >= 2 && spec_valid_size(args@[1]@) ==> (r matches Ok(st) && {
                &&& st.manager.wf()
                &&& st.manager.capacity() == spec_size_val(args@[1]@)
                &&& forall|i: int|
                    0 <= i < st.manager.capacity() ==> st.manager.memory@[i] == 0u8
                &&& st.manager.names@ == Map::<Seq<char>, SymbolData>::empty()
                &&& st.manager.blocks@ == free_lists_insert_all(
                    Map::<usize, Seq<usize>>::empty(),
                    chunk_seq(0, spec_size_val(args@[1]@)),
                )
                &&& st.manager.next_available_id == 1
                &&& st.allocated_memory as int == spec_size_val(args@[1]@)
                &&& st.exit == false
            }),
    {
        if args.len() < 2 {
            return Err(ProgramError::NotEnoughArgs);
        }
        match parse_size(&args[1]) {
            None => Err(ProgramError::InvalidArgs),
            Some(n) => Ok(
                ProgramState { manager: MemoryManager::new(n), allocated_memory: n, exit: false },
            ),
        }
    }

    /// Parse the whitespace-separated tokens of one input line into a
    /// directive. The directive word is matched case-insensitively.
    pub fn parse(tokens: &Vec<String>) -> (r: Result<ProgramAction, ProgramError>)
        ensures
            tokens@.len() == 0 ==> r == Err::<ProgramAction, ProgramError>(
                ProgramError::NotEnoughArgs,
            ),
            tokens@.len() >= 1 && matches_keyword(tokens@[0]@, "allocate"@) ==> {
                &&& tokens@.len() < 3 ==> r == Err::<ProgramAction, ProgramError>(
                    ProgramError::NotEnoughActionArgs((tokens@.len() - 1) as usize, 2),
                )
                &&& tokens@.len() >= 3 && spec_valid_size(tokens@[2]@) ==> (r matches Ok(a) && a
                    == ProgramAction::Allocate(tokens@[1], spec_size_val(tokens@[2]@) as usize))
                &&& tokens@.len() >= 3 && !spec_valid_size(tokens@[2]@) ==> (r matches Err(e) && e
                    matches ProgramError::InvalidActionArgs(rest) && rest@ == tokens@.skip(1))
            },
            tokens@.len() >= 1 && !matches_keyword(tokens@[0]@, "allocate"@) && matches_keyword(
                tokens@[0]@,
                "show"@,
            ) ==> r == Ok::<ProgramAction, ProgramError>(ProgramAction::Show),
            tokens@.len() >= 1 && !matches_keyword(tokens@[0]@, "allocate"@) && !matches_keyword(
                tokens@[0]@,
                "show"@,
            ) && matches_keyword(tokens@[0]@, "exit"@) ==> r == Ok::<ProgramAction, ProgramError>(
                ProgramAction::Exit,
            ),
            tokens@.len() >= 1 && !matches_keyword(tokens@[0]@, "allocate"@) && !matches_keyword(
                tokens@[0]@,
                "show"@,
            ) && !matches_keyword(tokens@[0]@, "exit"@) && matches_keyword(
                tokens@[0]@,
                "free"@,
            ) ==> {
                &&& tokens@.len() < 2 ==> r == Err::<ProgramAction, ProgramError>(
                    ProgramError::NotEnoughActionArgs(0, 1),
                )
                &&& tokens@.len() >= 2 ==> (r matches Ok(a) && a == ProgramAction::Free(
                    tokens@[1],
                ))
            },
            tokens@.len() >= 1 && !matches_keyword(tokens@[0]@, "allocate"@) && !matches_keyword(
                tokens@[0]@,
                "show"@,
            ) && !matches_keyword(tokens@[0]@, "exit"@) && !matches_keyword(
                tokens@[0]@,
                "free"@,
            ) ==> (r matches Err(e) && e matches ProgramError::InvalidAction(t) && t@
                == tokens@[0]@),
    {
        if tokens.len() == 0 {
            return Err(ProgramError::NotEnoughArgs);
        }
        let action = &tokens[0];
        if token_matches(action, "allocate") {
            let rest = clone_rest(tokens, 1);
            parse_allocation(rest)
        } else if token_matches(action, "show") {
            Ok(ProgramAction::Show)
        } else if token_matches(action, "exit") {
            Ok(ProgramAction::Exit)
        } else if token_matches(action, "free") {
            let rest = clone_rest(tokens, 1);
            parse_free(rest)
        } else {
            Err(ProgramError::InvalidAction(action.clone()))
        }
    }

    /// Whether the interactive loop should stop.
    pub fn exit(&self) -> (r: bool)
        ensures
            r == self.exit,
    {
        self.exit
    }
}

} // verus!
