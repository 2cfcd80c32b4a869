//! Learning from finished projects: the best practices drawn from success
//! patterns, and what is kept in memory under which key.

use vstd::prelude::*;
use vstd::arithmetic::power2::pow2;
use vstd::string::StringExecFns;

use crate::agent::SmartAgent;
use crate::swarm::pipeline::PipelineResult;

verus! {

/// The kinds of practice the engine records.
#[derive(Debug, Clone, Copy, PartialEq, Eq, Structural)]
pub enum PracticeCategory {
    Architecture,
    CodeStyle,
    Testing,
    Security,
    Performance,
    Deployment,
    Debugging,
    Tooling,
}

/// A success pattern as practices are drawn from it. Its success rate, a
/// floating-point figure that becomes the practice's score, is not held
/// here: the caller keeps it beside the pattern.
#[derive(Debug, Clone)]
pub struct PatternText {
    pub pattern_id: String,
    pub problem_signature: String,
    pub solution_template: String,
    pub applicable_scenarios: Vec<String>,
}

/// A best practice. Its effectiveness score, a floating-point figure, is
/// not held here: the caller pairs it with the practice.
#[derive(Debug, Clone)]
pub struct Practice {
    pub id: String,
    pub category: PracticeCategory,
    pub title: String,
    pub description: String,
    pub context: String,
    pub solution: String,
    pub code_example: Option<String>,
    pub tags: Vec<String>,
    pub usage_count: usize,
    pub created_at: String,
}

/// The lowercase hexadecimal digit `d` (taken as `f` beyond 15).
pub open spec fn hex_char(d: int) -> char {
    if d < 10 {
        digit_char(d)
    } else if d == 10 {
        'a'
    } else if d == 11 {
        'b'
    } else if d == 12 {
        'c'
    } else if d == 13 {
        'd'
    } else if d == 14 {
        'e'
    } else {
        'f'
    }
}

/// Hexadecimal digit number `k` (0 to 31, most significant first) of `id`.
pub open spec fn nibble(id: u128, k: int) -> int {
    ((id as nat / pow2((4 * (31 - k)) as nat)) % 16) as int
}

/// How many hyphens stand before position `p` of a hyphenated UUID.
pub open spec fn hyphens_before(p: int) -> int {
    if p > 23 {
        4
    } else if p > 18 {
        3
    } else if p > 13 {
        2
    } else if p > 8 {
        1
    } else {
        0
    }
}

/// The hyphenated text of the UUID whose 128-bit value is `id`: its 32
/// lowercase hexadecimal digits, most significant first, with `-` at
/// positions 8, 13, 18 and 23, 36 characters in all.
pub open spec fn uuid_text(id: u128) -> Seq<char> {
    Seq::new(
        36,
        |p: int|
            if p == 8 || p == 13 || p == 18 || p == 23 {
                '-'
            } else {
                hex_char(nibble(id, p - hyphens_before(p)))
            },
    )
}

/// `uuid::Uuid::from_u128(id).to_string()`: the UUID whose big-endian bytes
/// are those of `id`, displayed in its hyphenated lowercase form.
#[verifier::external_body]
fn hyphenated_uuid(id: u128) -> (s: String)
    ensures
        s@ == uuid_text(id),
{
    uuid::Uuid::from_u128(id).to_string()
}

/// `c` is a decimal digit.
pub open spec fn is_digit(c: char) -> bool {
    '0' <= c && c <= '9'
}

/// The year of an RFC 3339 date as written: four digits, or, for a year
/// outside 0 to 9999, a sign and at least four digits.
pub open spec fn is_year_text(y: Seq<char>) -> bool {
    ||| y.len() == 4 && forall|i: int| 0 <= i < 4 ==> is_digit(#[trigger] y[i])
    ||| y.len() >= 5 && (y[0] == '+' || y[0] == '-') && forall|i: int|
        1 <= i < y.len() ==> is_digit(#[trigger] y[i])
}

/// `s` is a UTC time written as RFC 3339, `YYYY-MM-DDTHH:MM:SS`, followed
/// by a fraction of a second of `k` characters (none, or a point and 3, 6
/// or 9 digits) and the offset `+00:00`.
pub open spec fn is_utc_rfc3339_with(s: Seq<char>, k: int) -> bool {
    let n = s.len() as int;
    let e = n - 6 - k;
    &&& k == 0 || k == 4 || k == 7 || k == 10
    &&& e >= 19
    &&& is_year_text(s.subrange(0, e - 15))
    &&& s[e - 15] == '-' && is_digit(s[e - 14]) && is_digit(s[e - 13])
    &&& s[e - 12] == '-' && is_digit(s[e - 11]) && is_digit(s[e - 10])
    &&& s[e - 9] == 'T' && is_digit(s[e - 8]) && is_digit(s[e - 7])
    &&& s[e - 6] == ':' && is_digit(s[e - 5]) && is_digit(s[e - 4])
    &&& s[e - 3] == ':' && is_digit(s[e - 2]) && is_digit(s[e - 1])
    &&& k > 0 ==> s[e] == '.' && forall|i: int| e < i < e + k ==> is_digit(#[trigger] s[i])
    &&& s.subrange(n - 6, n) == "+00:00"@
}

/// `s` is a UTC time written as RFC 3339, with the offset `+00:00`.
pub open spec fn is_utc_rfc3339(s: Seq<char>) -> bool {
    exists|k: int| #[trigger] is_utc_rfc3339_with(s, k)
}

/// `chrono::Utc::now().to_rfc3339()`: the current time in UTC, written as
/// RFC 3339 with the offset `+00:00` and as many fraction digits (0, 3, 6
/// or 9) as the reading needs. Which time it reads depends on the clock and
/// is not stated.
#[verifier::external_body]
fn now_rfc3339() -> (s: String)
    ensures
        is_utc_rfc3339(s@),
{
    chrono::Utc::now().to_rfc3339()
}

/// `t` is the text of a reading that a call of the clock (`now_rfc3339`)
/// returned.
pub closed spec fn clock_reading(t: Seq<char>) -> bool {
    exists|r: String| #[trigger] call_ensures(now_rfc3339, (), r) && r@ == t
}

/// The decimal digit `d` (taken as 9 beyond 9).
pub open spec fn digit_char(d: int) -> char {
    if d == 0 {
        '0'
    } else if d == 1 {
        '1'
    } else if d == 2 {
        '2'
    } else if d == 3 {
        '3'
    } else if d == 4 {
        '4'
    } else if d == 5 {
        '5'
    } else if d == 6 {
        '6'
    } else if d == 7 {
        '7'
    } else if d == 8 {
        '8'
    } else {
        '9'
    }
}

/// `n` written in decimal, without leading zeros.
pub open spec fn decimal(n: nat) -> Seq<char>
    decreases n,
{
    if n < 10 {
        seq![digit_char(n as int)]
    } else {
        decimal(n / 10).push(digit_char((n % 10) as int))
    }
}

/// The texts of `parts` with `sep` between each two.
pub open spec fn joined(parts: Seq<String>, sep: Seq<char>) -> Seq<char>
    decreases parts.len(),
{
    if parts.len() == 0 {
        Seq::empty()
    } else if parts.len() == 1 {
        parts[0]@
    } else {
        joined(parts.drop_last(), sep) + sep + parts.last()@
    }
}

/// The id of practice number `i` drawn from a run of the project whose id
/// reads `project`.
pub open spec fn practice_id(project: Seq<char>, i: nat) -> Seq<char> {
    "bp-"@ + project + "-"@ + decimal(i)
}

/// `p` is practice number `i` of the project whose id reads `project`,
/// drawn from `pattern` at time `created_at`: a tooling practice tagged as
/// a success, whose solution is the pattern's template and whose context
/// lists the scenarios the pattern applies to.
pub open spec fn practice_from(p: Practice, pattern: PatternText, project: Seq<char>, i: nat, created_at: Seq<char>) -> bool {
    &&& p.id@ == practice_id(project, i)
    &&& p.category == PracticeCategory::Tooling
    &&& p.title@ == "成功模式："@ + pattern.pattern_id@
    &&& p.description@ == pattern.solution_template@
    &&& p.context@ == joined(pattern.applicable_scenarios@, ", "@)
    &&& p.solution@ == pattern.solution_template@
    &&& p.code_example.is_none()
    &&& p.tags@.len() == 1
    &&& p.tags@[0]@ == "success"@
    &&& p.usage_count == 0
    &&& p.created_at@ == created_at
}

/// The decimal digit `d`.
fn digit_str(d: usize) -> (s: &'static str)
    requires
        d < 10,
    ensures
        s@ == seq![digit_char(d as int)],
{
    proof {
        reveal_strlit("0");
        reveal_strlit("1");
        reveal_strlit("2");
        reveal_strlit("3");
        reveal_strlit("4");
        reveal_strlit("5");
        reveal_strlit("6");
        reveal_strlit("7");
        reveal_strlit("8");
        reveal_strlit("9");
    }
    if d == 0 {
        "0"
    } else if d == 1 {
        "1"
    } else if d == 2 {
        "2"
    } else if d == 3 {
        "3"
    } else if d == 4 {
        "4"
    } else if d == 5 {
        "5"
    } else if d == 6 {
        "6"
    } else if d == 7 {
        "7"
    } else if d == 8 {
        "8"
    } else {
        "9"
    }
}

/// `n` written in decimal.
pub fn decimal_text(n: usize) -> (s: String)
    ensures
        s@ == decimal(n as nat),
    decreases n,
{
    if n < 10 {
        digit_str(n).to_string()
    } else {
        let mut s = decimal_text(n / 10);
        let d = digit_str(n % 10);
        s.append(d);
        proof {
            assert(s@ =~= decimal((n / 10) as nat).push(digit_char((n % 10) as int)));
        }
        s
    }
}

/// The texts of `parts` with `sep` between each two.
pub fn join_texts(parts: &Vec<String>, sep: &str) -> (s: String)
    ensures
        s@ == joined(parts@, sep@),
{
    let mut s = String::new();
    let mut i: usize = 0;
    while i < parts.len()
        invariant
            i <= parts.len(),
            s@ == joined(parts@.take(i as int), sep@),
        decreases parts.len() - i,
    {
        proof {
            assert(parts@.take(i + 1).drop_last() =~= parts@.take(i as int));
            assert(parts@.take(i + 1).last() == parts@[i as int]);
        }
        if i > 0 {
            s.append(sep);
        }
        s.append(parts[i].as_str());
        i = i + 1;
    }
    proof {
        assert(parts@.take(parts.len() as int) =~= parts@);
    }
    s
}

/// One practice per pattern, in order, numbered from 0 within the run of
/// the project whose id reads `project`, and stamped with `created_at`.
pub fn practices_for(patterns: &Vec<PatternText>, project: &str, created_at: &str) -> (out: Vec<Practice>)
    ensures
        out@.len() == patterns@.len(),
        forall|i: int|
            0 <= i < out@.len() ==> practice_from(#[trigger] out@[i], patterns@[i], project@, i as nat, created_at@),
{
    let mut out: Vec<Practice> = Vec::new();
    let mut i: usize = 0;
    while i < patterns.len()
        invariant
            i <= patterns.len(),
            out@.len() == i,
            forall|k: int|
                0 <= k < i ==> practice_from(#[trigger] out@[k], patterns@[k], project@, k as nat, created_at@),
        decreases patterns.len() - i,
    {
        let pattern = &patterns[i];
        let mut id = "bp-".to_string();
        id.append(project);
        id.append("-");
        let number = decimal_text(i);
        id.append(number.as_str());
        let mut title = "成功模式：".to_string();
        title.append(pattern.pattern_id.as_str());
        let mut tags: Vec<String> = Vec::new();
        tags.push("success".to_string());
        let practice = Practice {
            id,
            category: PracticeCategory::Tooling,
            title,
            description: pattern.solution_template.clone(),
            context: join_texts(&pattern.applicable_scenarios, ", "),
            solution: pattern.solution_template.clone(),
            code_example: None,
            tags,
            usage_count: 0,
            created_at: created_at.to_string(),
        };
        out.push(practice);
        i = i + 1;
    }
    out
}

/// One practice per pattern for the run of project `project_id` (its id
/// written as a UUID), stamped with `created_at`.
pub fn best_practices(patterns: &Vec<PatternText>, project_id: u128, created_at: &str) -> (out: Vec<Practice>)
    ensures
        out@.len() == patterns@.len(),
        forall|i: int|
            0 <= i < out@.len() ==> practice_from(
                #[trigger] out@[i],
                patterns@[i],
                uuid_text(project_id),
                i as nat,
                created_at@,
            ),
{
    let project = hyphenated_uuid(project_id);
    practices_for(patterns, project.as_str(), created_at)
}

/// How many stored experiences a practice lookup asks the memory for.
pub const PRACTICE_SEARCH_LIMIT: usize = 10;

/// Turns project outcomes into best practices kept in a memory store `M`.
pub struct EvolutionEngine<M> {
    agent: SmartAgent,
    memory: M,
}

impl<M> EvolutionEngine<M> {
    pub fn new(agent: SmartAgent, memory: M) -> (e: EvolutionEngine<M>)
        ensures
            e.agent() == agent,
            e.memory() == memory,
    {
        EvolutionEngine { agent, memory }
    }

    pub closed spec fn agent(&self) -> SmartAgent {
        self.agent
    }

    pub closed spec fn memory(&self) -> M {
        self.memory
    }

    /// The practices drawn from the success patterns of a finished run: one
    /// per pattern, in order, all stamped with the one time read from the
    /// clock, written as RFC 3339 in UTC. (Failure lessons yield no practice.)
    pub fn generate_best_practices(
        &self,
        success_patterns: &Vec<PatternText>,
        _failure_lessons: &Vec<PatternText>,
        result: &PipelineResult,
    ) -> (res: Result<Vec<Practice>, crate::error::AgentError>)
        ensures
            res matches Ok(out) && out@.len() == success_patterns@.len() && forall|i: int|
                0 <= i < out@.len() ==> practice_from(
                    #[trigger] out@[i],
                    success_patterns@[i],
                    uuid_text(result.project_id),
                    i as nat,
                    out@[0].created_at@,
                ) && (out@.len() > 0 ==> is_utc_rfc3339(out@[0].created_at@) && clock_reading(
                out@[0].created_at@,
            )),
    {
        let created_at = now_rfc3339();
        let out = best_practices(success_patterns, result.project_id, created_at.as_str());
        Ok(out)
    }

    /// The memory store the engine writes to.
    pub fn memory_store(&self) -> (m: &M)
        ensures
            *m == self.memory(),
    {
        &self.memory
    }
}

/// The memory key under which the practice with id `id` is stored.
pub fn practice_memory_key(id: &str) -> (key: String)
    ensures
        key@ == "best_practice:"@ + id@,
{
    let mut key = "best_practice:".to_string();
    key.append(id);
    key
}

/// `keys` holds, for each practice in order, the memory key it is saved under.
pub open spec fn keys_for(keys: Seq<String>, practices: Seq<Practice>) -> bool {
    &&& keys.len() == practices.len()
    &&& forall|i: int| 0 <= i < keys.len() ==> (#[trigger] keys[i])@ == "best_practice:"@ + practices[i].id@
}

/// The saving of a run's practices while one save is outstanding: the key
/// of each practice, and the index of the one whose save was requested.
pub struct SaveRun {
    keys: Vec<String>,
    next: usize,
}

/// What the caller must do next while saving practices.
pub enum SaveCommand {
    /// Save practice number `index` under `key` (durably), then report the
    /// outcome with `SaveRun::resume`.
    Save { index: usize, key: String, state: SaveRun },
    /// The saving is over with this outcome.
    Finish(Result<(), crate::error::AgentError>),
}

impl SaveRun {
    pub closed spec fn keys(&self) -> Seq<String> {
        self.keys@
    }

    pub closed spec fn next(&self) -> int {
        self.next as int
    }

    #[verifier::type_invariant]
    spec fn inv(self) -> bool {
        self.next < self.keys@.len()
    }

    /// Starts saving `practices`, one after the other.
    pub fn start(practices: &Vec<Practice>) -> (cmd: SaveCommand)
        ensures
            save_start_ok(cmd, practices@),
    {
        let mut keys: Vec<String> = Vec::new();
        let mut i: usize = 0;
        while i < practices.len()
            invariant
                i <= practices.len(),
                keys_for(keys@, practices@.take(i as int)),
            decreases practices.len() - i,
        {
            let key = practice_memory_key(practices[i].id.as_str());
            keys.push(key);
            i = i + 1;
        }
        proof {
            assert(practices@.take(practices.len() as int) =~= practices@);
        }
        if keys.len() == 0 {
            SaveCommand::Finish(Ok(()))
        } else {
            let key = keys[0].clone();
            SaveCommand::Save { index: 0, key, state: SaveRun { keys, next: 0 } }
        }
    }

    /// Continues once the requested save was made (`Ok`) or failed (`Err`).
    pub fn resume(self, saved: Result<(), crate::error::AgentError>) -> (cmd: SaveCommand)
        ensures
            save_resume_ok(cmd, self, saved),
    {
        proof {
            use_type_invariant(&self);
        }
        match saved {
            Err(e) => SaveCommand::Finish(Err(e)),
            Ok(()) => {
                let SaveRun { keys, next } = self;
                assert(next < keys.len());
                if next + 1 < keys.len() {
                    let key = keys[next + 1].clone();
                    SaveCommand::Save { index: next + 1, key, state: SaveRun { keys, next: next + 1 } }
                } else {
                    SaveCommand::Finish(Ok(()))
                }
            },
        }
    }
}

/// `cmd` is how saving `practices` starts: with none there is nothing to
/// save; otherwise the first practice is saved under its key.
pub open spec fn save_start_ok(cmd: SaveCommand, practices: Seq<Practice>) -> bool {
    if practices.len() == 0 {
        cmd == SaveCommand::Finish(Ok(()))
    } else {
        cmd matches SaveCommand::Save { index, key, state } && {
            &&& index == 0
            &&& state.next() == 0
            &&& keys_for(state.keys(), practices)
            &&& key@ == state.keys()[0]@
        }
    }
}

/// `cmd` is what follows the save requested in `state`: a failed save ends
/// the saving with its error, so no later practice is saved; otherwise the
/// next practice is saved under its key, or, after the last, the saving
/// ends successfully.
pub open spec fn save_resume_ok(cmd: SaveCommand, state: SaveRun, saved: Result<(), crate::error::AgentError>) -> bool {
    match saved {
        Err(e) => cmd == SaveCommand::Finish(Err(e)),
        Ok(()) => if state.next() + 1 < state.keys().len() {
            cmd matches SaveCommand::Save { index, key, state: s } && {
                &&& index == state.next() + 1
                &&& s.next() == index
                &&& s.keys() == state.keys()
                &&& key@ == s.keys()[index as int]@
            }
        } else {
            cmd == SaveCommand::Finish(Ok(()))
        },
    }
}

/// A saving in which every save succeeds: each step but the last requests
/// a save and is followed by what comes after it succeeds; the last step
/// ends the saving.
pub open spec fn saves_succeed(cmds: Seq<SaveCommand>) -> bool {
    &&& cmds.len() >= 1
    &&& forall|k: int|
        0 <= k < cmds.len() - 1 ==> (#[trigger] cmds[k] matches SaveCommand::Save { state, .. } && save_resume_ok(
            cmds[k + 1],
            state,
            Ok(()),
        ))
    &&& cmds.last() is Finish
}

proof fn lemma_save_step(practices: Seq<Practice>, cmds: Seq<SaveCommand>, j: int)
    requires
        save_start_ok(cmds[0], practices),
        saves_succeed(cmds),
        0 <= j < practices.len(),
    ensures
        j < cmds.len(),
        cmds[j] matches SaveCommand::Save { index, key, state } && {
            &&& index == j
            &&& state.next() == j
            &&& keys_for(state.keys(), practices)
            &&& key@ == "best_practice:"@ + practices[j].id@
        },
    decreases j,
{
    if j > 0 {
        lemma_save_step(practices, cmds, j - 1);
        assert(j - 1 < cmds.len() - 1) by {
            if j - 1 == cmds.len() - 1 {
                assert(cmds.last() == cmds[j - 1]);
            }
        }
        assert(cmds[j - 1] matches SaveCommand::Save { state, .. } && save_resume_ok(cmds[j], state, Ok(())));
    }
}

/// When every save succeeds, each practice is saved once, in order, under
/// the key `best_practice:` followed by its id, and the saving then ends
/// successfully.
pub proof fn lemma_saves_in_order(practices: Seq<Practice>, cmds: Seq<SaveCommand>)
    requires
        save_start_ok(cmds[0], practices),
        saves_succeed(cmds),
    ensures
        cmds.len() == practices.len() + 1,
        forall|k: int|
            0 <= k < cmds.len() - 1 ==> (#[trigger] cmds[k] matches SaveCommand::Save { index, key, .. } && index
                == k && key@ == "best_practice:"@ + practices[k].id@),
        cmds.last() == SaveCommand::Finish(Ok(())),
{
    let n = practices.len() as int;
    if n == 0 {
        assert(cmds.len() == 1) by {
            if cmds.len() > 1 {
                assert(cmds[0] matches SaveCommand::Save { .. });
            }
        }
    } else {
        lemma_save_step(practices, cmds, n - 1);
        assert(n - 1 < cmds.len() - 1) by {
            if n - 1 == cmds.len() - 1 {
                assert(cmds.last() == cmds[n - 1]);
            }
        }
        assert(cmds[n - 1] matches SaveCommand::Save { state, .. } && save_resume_ok(cmds[n], state, Ok(())));
        assert(cmds.len() == n + 1) by {
            if cmds.len() > n + 1 {
                assert(cmds[n] matches SaveCommand::Save { .. });
            }
        }
        assert forall|k: int| 0 <= k < cmds.len() - 1 implies (#[trigger] cmds[k] matches SaveCommand::Save {
            index,
            key,
            ..
        } && index == k && key@ == "best_practice:"@ + practices[k].id@) by {
            lemma_save_step(practices, cmds, k);
        }
    }
}

} // verus!
