use vstd::prelude::*;
use vstd::string::*;

use crate::text::char_string;

verus! {

#[derive(Debug, Clone, Copy, PartialEq, Eq, Structural)]
pub enum OptimizationLevel {
    O0,
    O2,
}

// O2 is split into cleanup stages around transformations that expose new opportunities:
// - `cslud`: copy propagation, SCCP, switch peephole, unused-operation elimination, and
//   defragmentation simplify and compact functions before inlining.
// - `i`: inlining runs after cleanup so its size heuristic sees accurate function sizes.
// - `su`: SCCP specializes inlined code, then unused-operation elimination removes dead work.
// - `m`: basic-block merging collapses newly linear control flow.
// - `csud`: copy propagation removes copies introduced by merging, SCCP finds newly exposed
//   constants, unused-operation elimination removes dead work, and defragmentation performs final
//   compaction.
pub const O2_PASSES: &'static str = "csludisumcsludisumcsud";

pub open spec fn o2_passes() -> Seq<char> {
    "csludisumcsludisumcsud"@
}

pub const PASSES_HELP: &'static str = "Optimization passes to run in order. Each character is a pass:\n    s = SCCP (constant propagation),\n    c = copy propagation,\n    u = unused operation elimination,\n    d = defragment,\n    l = switch peephole,\n    i = inlining,\n    m = basic block merging.\n    Example: --passes csuimd";

impl OptimizationLevel {
    /// The default level, `O0`.
    pub fn default_level() -> (r: OptimizationLevel)
        ensures
            r == OptimizationLevel::O0,
    {
        OptimizationLevel::O0
    }

    /// The pass string that the level runs, if it runs any.
    pub fn passes(self) -> (r: Option<&'static str>)
        ensures
            r is Some <==> self == OptimizationLevel::O2,
            r matches Some(s) ==> s@ == o2_passes(),
    {
        match self {
            OptimizationLevel::O0 => None,
            OptimizationLevel::O2 => Some(O2_PASSES),
        }
    }
}

impl Default for OptimizationLevel {
    fn default() -> (r: OptimizationLevel)
        ensures
            r == OptimizationLevel::O0,
    {
        OptimizationLevel::O0
    }
}

/// ASCII lowercase of a character.
pub open spec fn ascii_lower(c: char) -> char {
    if 'A' <= c <= 'Z' {
        ((c as u32) + 32) as char
    } else {
        c
    }
}

fn lower(c: char) -> (r: char)
    ensures
        r == ascii_lower(c),
{
    if 'A' <= c && c <= 'Z' {
        ((c as u8) + 32) as char
    } else {
        c
    }
}

/// The level that a (case-insensitive) level name denotes.
pub open spec fn level_of(value: Seq<char>) -> Option<OptimizationLevel> {
    if value =~= seq!['0'] || (value.len() == 2 && ascii_lower(value[0]) == 'o' && value[1] == '0') {
        Some(OptimizationLevel::O0)
    } else if value =~= seq!['2'] || (value.len() == 2 && ascii_lower(value[0]) == 'o' && value[1]
        == '2') {
        Some(OptimizationLevel::O2)
    } else {
        None
    }
}

/// Parses an optimization level: `0`/`O0` or `2`/`O2`, ignoring case.
pub fn parse_level(value: &str) -> (r: Result<OptimizationLevel, String>)
    ensures
        level_of(value@) matches Some(level) ==> r == Ok::<OptimizationLevel, String>(level),
        level_of(value@) is None ==> r is Err,
        r matches Err(message) ==> message@ == "invalid SIR optimization level '"@ + value@
            + "', valid levels: O0, O2"@,
{
    let len = value.unicode_len();
    if len == 1 {
        let c = value.get_char(0);
        if c == '0' {
            proof {
                assert(value@ =~= seq!['0']);
            }
            return Ok(OptimizationLevel::O0);
        }
        if c == '2' {
            proof {
                assert(value@ =~= seq!['2']);
            }
            return Ok(OptimizationLevel::O2);
        }
    } else if len == 2 {
        let first = lower(value.get_char(0));
        let second = value.get_char(1);
        if first == 'o' && second == '0' {
            return Ok(OptimizationLevel::O0);
        }
        if first == 'o' && second == '2' {
            return Ok(OptimizationLevel::O2);
        }
    }
    proof {
        if value@ =~= seq!['0'] || value@ =~= seq!['2'] {
            assert(value@.len() == 1);
        }
    }
    let mut message = String::from_str("invalid SIR optimization level '");
    message.append(value);
    message.append("', valid levels: O0, O2");
    Err(message)
}

impl core::str::FromStr for OptimizationLevel {
    type Err = String;

    fn from_str(value: &str) -> Result<OptimizationLevel, String> {
        parse_level(value)
    }
}

#[derive(Debug, Clone, Copy, PartialEq, Eq, Structural)]
pub enum OptimizationPass {
    Sccp,
    CopyPropagation,
    UnusedElimination,
    Defragment,
    SwitchPeephole,
    Inlining,
    BasicBlockMerging,
}

/// The pass that a character selects.
pub open spec fn pass_of(c: char) -> Option<OptimizationPass> {
    if c == 's' {
        Some(OptimizationPass::Sccp)
    } else if c == 'c' {
        Some(OptimizationPass::CopyPropagation)
    } else if c == 'u' {
        Some(OptimizationPass::UnusedElimination)
    } else if c == 'd' {
        Some(OptimizationPass::Defragment)
    } else if c == 'l' {
        Some(OptimizationPass::SwitchPeephole)
    } else if c == 'i' {
        Some(OptimizationPass::Inlining)
    } else if c == 'm' {
        Some(OptimizationPass::BasicBlockMerging)
    } else {
        None
    }
}

impl OptimizationPass {
    pub fn from_char(c: char) -> (r: Option<OptimizationPass>)
        ensures
            r == pass_of(c),
    {
        match c {
            's' => Some(OptimizationPass::Sccp),
            'c' => Some(OptimizationPass::CopyPropagation),
            'u' => Some(OptimizationPass::UnusedElimination),
            'd' => Some(OptimizationPass::Defragment),
            'l' => Some(OptimizationPass::SwitchPeephole),
            'i' => Some(OptimizationPass::Inlining),
            'm' => Some(OptimizationPass::BasicBlockMerging),
            _ => None,
        }
    }
}

pub open spec fn valid_pass(c: char) -> bool {
    pass_of(c) is Some
}

pub open spec fn valid_cleanup_pass(c: char) -> bool {
    c == 's' || c == 'c' || c == 'u' || c == 'd'
}

/// Scans `s` for the first character that `valid` rejects.
fn scan(s: &str, Ghost(valid): Ghost<spec_fn(char) -> bool>, pass_only: bool) -> (r: Option<char>)
    requires
        pass_only ==> valid == (|c: char| valid_pass(c)),
        !pass_only ==> valid == (|c: char| valid_cleanup_pass(c)),
    ensures
        r is None <==> forall|i: int| 0 <= i < s@.len() ==> valid(#[trigger] s@[i]),
        r matches Some(c) ==> exists|i: int|
            0 <= i < s@.len() && s@[i] == c && !valid(c) && forall|j: int|
                0 <= j < i ==> valid(#[trigger] s@[j]),
{
    let len = s.unicode_len();
    let mut i: usize = 0;
    while i < len
        invariant
            len == s@.len(),
            i <= len,
            pass_only ==> valid == (|c: char| valid_pass(c)),
            !pass_only ==> valid == (|c: char| valid_cleanup_pass(c)),
            forall|j: int| 0 <= j < i ==> valid(#[trigger] s@[j]),
        decreases len - i,
    {
        let c = s.get_char(i);
        let ok = if pass_only {
            OptimizationPass::from_char(c).is_some()
        } else {
            c == 's' || c == 'c' || c == 'u' || c == 'd'
        };
        if !ok {
            return Some(c);
        }
        i = i + 1;
    }
    None
}

/// Accepts a pass string whose every character names a pass.
pub fn parse_passes(s: &str) -> (r: Result<String, String>)
    ensures
        r is Ok <==> forall|i: int| 0 <= i < s@.len() ==> valid_pass(#[trigger] s@[i]),
        r matches Ok(passes) ==> passes@ == s@,
        r matches Err(message) ==> exists|i: int|
            0 <= i < s@.len() && !valid_pass(s@[i]) && (forall|j: int|
                0 <= j < i ==> valid_pass(#[trigger] s@[j])) && message@
                == "invalid optimization pass '"@ + seq![s@[i]]
                + "', valid passes: s (SCCP), c (copy propagation), u (unused elimination), d (defragment), l (switch peephole), i (inlining), m (basic block merging)"@,
{
    match scan(s, Ghost(|c: char| valid_pass(c)), true) {
        None => Ok(s.to_owned()),
        Some(c) => {
            let mut message = String::from_str("invalid optimization pass '");
            let c_str = char_string(c);
            message.append(c_str.as_str());
            message.append(
                "', valid passes: s (SCCP), c (copy propagation), u (unused elimination), d (defragment), l (switch peephole), i (inlining), m (basic block merging)",
            );
            Err(message)
        },
    }
}

/// Accepts a pass string made of the cleanup passes `s`, `c`, `u` and `d`.
pub fn parse_passes_string(s: &str) -> (r: Result<String, String>)
    ensures
        r is Ok <==> forall|i: int| 0 <= i < s@.len() ==> valid_cleanup_pass(#[trigger] s@[i]),
        r matches Ok(passes) ==> passes@ == s@,
        r matches Err(message) ==> exists|i: int|
            0 <= i < s@.len() && !valid_cleanup_pass(s@[i]) && (forall|j: int|
                0 <= j < i ==> valid_cleanup_pass(#[trigger] s@[j])) && message@
                == "invalid optimization pass '"@ + seq![s@[i]]
                + "', valid passes: s (SCCP), c (copy propagation), u (unused elimination), d (defragment)"@,
{
    match scan(s, Ghost(|c: char| valid_cleanup_pass(c)), false) {
        None => Ok(s.to_owned()),
        Some(c) => {
            let mut message = String::from_str("invalid optimization pass '");
            let c_str = char_string(c);
            message.append(c_str.as_str());
            message.append(
                "', valid passes: s (SCCP), c (copy propagation), u (unused elimination), d (defragment)",
            );
            Err(message)
        },
    }
}

/// Every character of the `O2` pipeline names a pass.
pub proof fn lemma_o2_passes_valid()
    ensures
        forall|i: int| 0 <= i < o2_passes().len() ==> valid_pass(#[trigger] o2_passes()[i]),
{
    reveal_strlit("csludisumcsludisumcsud");
}

/// Every cleanup pass is a pass.
pub proof fn lemma_cleanup_passes_are_passes(c: char)
    ensures
        valid_cleanup_pass(c) ==> valid_pass(c),
{
}

} // verus!
