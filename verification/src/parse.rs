//! Turning a raw command line into a pipeline of argument vectors.
//!
//! The grammar is deliberately small: the line is split on `|` into
//! stages, each stage is split on whitespace into words, a single `&` as
//! the final word of the line marks the whole pipeline as background, and
//! a `>` word in the last stage followed by a target word redirects that
//! stage's output.  There is no quoting, globbing or expansion.

use vstd::prelude::*;

verus! {

/// Why a command line was rejected.
#[derive(Clone, Copy, Debug, PartialEq, Eq, Structural)]
pub enum ParseError {
    /// The line holds no word at all.
    EmptyCommand,
    /// Some pipeline stage has no program word.
    EmptyStage,
    /// An output redirection marker without a target, with more than one
    /// marker, or placed in a stage other than the last.
    BadRedirect,
}

/// One pipeline stage: a program name followed by its arguments.
#[derive(Debug)]
pub struct Stage {
    pub argv: Vec<String>,
}

/// A parsed command line, ready to be realized as OS processes.
#[derive(Debug)]
pub struct SpawnPlan {
    /// The stages, in pipeline order; every argument vector is non-empty.
    pub stages: Vec<Stage>,
    /// Whether the line ended in a lone `&` word.
    pub background: bool,
    /// Output redirection target of the last stage, if any.
    pub redirect: Option<String>,
    /// The raw line as typed, kept for display in the job table.
    pub line: String,
}

/// Ghost image of a spawn plan.
pub ghost struct PlanS {
    pub stages: Seq<Seq<Seq<char>>>,
    pub background: bool,
    pub redirect: Option<Seq<char>>,
    pub line: Seq<char>,
}

/// The views of a sequence of words.
pub open spec fn word_views(v: Seq<String>) -> Seq<Seq<char>> {
    Seq::new(v.len(), |k: int| v[k]@)
}

/// The views of a sequence of stages.
pub open spec fn stage_views(v: Seq<Stage>) -> Seq<Seq<Seq<char>>> {
    Seq::new(v.len(), |k: int| word_views(v[k].argv@))
}

/// The view of an optional word.
pub open spec fn opt_view(o: Option<String>) -> Option<Seq<char>> {
    match o {
        Some(s) => Some(s@),
        None => None,
    }
}

/// The ghost image of an executable plan.
pub open spec fn plan_view(p: SpawnPlan) -> PlanS {
    PlanS {
        stages: stage_views(p.stages@),
        background: p.background,
        redirect: opt_view(p.redirect),
        line: p.line@,
    }
}

/// Word-splitting whitespace.
pub open spec fn is_ws(c: char) -> bool {
    c == ' ' || c == '\t' || c == '\n' || c == '\r'
}

/// Splits `s` from position `i` on `|` characters; `cur` is the piece
/// read so far and `acc` the pieces already complete.
pub open spec fn split_pipes_s(s: Seq<char>, i: int, cur: Seq<char>, acc: Seq<Seq<char>>) -> Seq<
    Seq<char>,
>
    decreases s.len() - i,
{
    if i < 0 || i >= s.len() {
        acc.push(cur)
    } else if s[i] == '|' {
        split_pipes_s(s, i + 1, Seq::empty(), acc.push(cur))
    } else {
        split_pipes_s(s, i + 1, cur.push(s[i]), acc)
    }
}

/// The `|`-separated pieces of a line; always at least one.
pub open spec fn pieces_of(s: Seq<char>) -> Seq<Seq<char>> {
    split_pipes_s(s, 0, Seq::empty(), Seq::empty())
}

/// Splits `s` from position `i` on whitespace, dropping empty words.
pub open spec fn split_ws_s(s: Seq<char>, i: int, cur: Seq<char>, acc: Seq<Seq<char>>) -> Seq<
    Seq<char>,
>
    decreases s.len() - i,
{
    if i < 0 || i >= s.len() {
        if cur.len() > 0 {
            acc.push(cur)
        } else {
            acc
        }
    } else if is_ws(s[i]) {
        split_ws_s(
            s,
            i + 1,
            Seq::empty(),
            if cur.len() > 0 {
                acc.push(cur)
            } else {
                acc
            },
        )
    } else {
        split_ws_s(s, i + 1, cur.push(s[i]), acc)
    }
}

/// The whitespace-separated words of one stage.
pub open spec fn words_of(s: Seq<char>) -> Seq<Seq<char>> {
    split_ws_s(s, 0, Seq::empty(), Seq::empty())
}

/// The words of each `|`-separated piece of the line.
pub open spec fn raw_stages_of(line: Seq<char>) -> Seq<Seq<Seq<char>>> {
    Seq::new(pieces_of(line).len(), |k: int| words_of(pieces_of(line)[k]))
}

/// A lone `&` word.
pub open spec fn is_amp_w(w: Seq<char>) -> bool {
    w.len() == 1 && w[0] == '&'
}

/// A lone `>` word.
pub open spec fn is_gt_w(w: Seq<char>) -> bool {
    w.len() == 1 && w[0] == '>'
}

/// Index of the first `>` word at or after `i`, or the length if none.
pub open spec fn find_gt(ws: Seq<Seq<char>>, i: int) -> int
    decreases ws.len() - i,
{
    if i < 0 || i >= ws.len() {
        ws.len() as int
    } else if is_gt_w(ws[i]) {
        i
    } else {
        find_gt(ws, i + 1)
    }
}

/// Whether some word of `ws` is a `>` marker.
pub open spec fn has_gt(ws: Seq<Seq<char>>) -> bool {
    find_gt(ws, 0) < ws.len()
}

/// Whether some stage at or after `i`, other than the last, holds a `>` marker.
pub open spec fn any_gt_front(st: Seq<Seq<Seq<char>>>, i: int) -> bool
    decreases st.len() - i,
{
    if i < 0 || i >= st.len() - 1 {
        false
    } else {
        has_gt(st[i]) || any_gt_front(st, i + 1)
    }
}

/// Whether some stage at or after `i` has no word.
pub open spec fn any_empty(st: Seq<Seq<Seq<char>>>, i: int) -> bool
    decreases st.len() - i,
{
    if i < 0 || i >= st.len() {
        false
    } else {
        st[i].len() == 0 || any_empty(st, i + 1)
    }
}

/// What parsing the given line must yield.
pub open spec fn parse_s(line: Seq<char>) -> Result<PlanS, ParseError> {
    let raw = raw_stages_of(line);
    if raw.len() == 1 && raw[0].len() == 0 {
        Err(ParseError::EmptyCommand)
    } else {
        let lastw = raw[raw.len() - 1];
        let background = lastw.len() > 0 && is_amp_w(lastw[lastw.len() - 1]);
        let stages1 = if background {
            raw.update(raw.len() - 1, lastw.drop_last())
        } else {
            raw
        };
        let lw = stages1[stages1.len() - 1];
        let k = find_gt(lw, 0);
        if k < lw.len() && k + 1 >= lw.len() {
            Err(ParseError::BadRedirect)
        } else {
            let redirect = if k < lw.len() {
                Some(lw[k + 1])
            } else {
                None
            };
            let lw2 = if k < lw.len() {
                lw.remove(k + 1).remove(k)
            } else {
                lw
            };
            let stages2 = stages1.update(stages1.len() - 1, lw2);
            if k < lw.len() && has_gt(lw2) {
                Err(ParseError::BadRedirect)
            } else if any_gt_front(stages2, 0) {
                Err(ParseError::BadRedirect)
            } else if any_empty(stages2, 0) {
                Err(ParseError::EmptyStage)
            } else {
                Ok(PlanS { stages: stages2, background, redirect, line })
            }
        }
    }
}

/// The ghost image of a parse result.
pub open spec fn res_view(r: Result<SpawnPlan, ParseError>) -> Result<PlanS, ParseError> {
    match r {
        Ok(p) => Ok(plan_view(p)),
        Err(e) => Err(e),
    }
}

/// Splitting never yields fewer pieces than were already accumulated,
/// plus the one being read.
proof fn lemma_split_pipes_len(s: Seq<char>, i: int, cur: Seq<char>, acc: Seq<Seq<char>>)
    ensures
        split_pipes_s(s, i, cur, acc).len() >= acc.len() + 1,
    decreases s.len() - i,
{
    if i < 0 || i >= s.len() {
    } else if s[i] == '|' {
        lemma_split_pipes_len(s, i + 1, Seq::empty(), acc.push(cur));
    } else {
        lemma_split_pipes_len(s, i + 1, cur.push(s[i]), acc);
    }
}

/// Cuts a line into its `|`-separated pieces.
fn split_pipes(s: &str) -> (r: Vec<String>)
    ensures
        word_views(r@) == pieces_of(s@),
        r@.len() >= 1,
{
    let n = s.unicode_len();
    let mut acc: Vec<String> = Vec::new();
    let mut st: usize = 0;
    let mut i: usize = 0;
    proof {
        assert(s@.subrange(0, 0) =~= Seq::<char>::empty());
        assert(word_views(acc@) =~= Seq::<Seq<char>>::empty());
    }
    while i < n
        invariant
            n == s@.len(),
            st <= i <= n,
            pieces_of(s@) == split_pipes_s(
                s@,
                i as int,
                s@.subrange(st as int, i as int),
                word_views(acc@),
            ),
        decreases n - i,
    {
        let c = s.get_char(i);
        let ghost acc0 = acc@;
        let ghost cur0 = s@.subrange(st as int, i as int);
        if c == '|' {
            let w = s.substring_char(st, i).to_owned();
            acc.push(w);
            st = i + 1;
            proof {
                assert(word_views(acc@) =~= word_views(acc0).push(cur0));
                assert(s@.subrange(st as int, (i + 1) as int) =~= Seq::<char>::empty());
            }
        } else {
            proof {
                assert(s@.subrange(st as int, (i + 1) as int) =~= cur0.push(s@[i as int]));
            }
        }
        i = i + 1;
    }
    let w = s.substring_char(st, n).to_owned();
    let ghost accf = acc@;
    acc.push(w);
    proof {
        assert(word_views(acc@) =~= word_views(accf).push(s@.subrange(st as int, n as int)));
        lemma_split_pipes_len(s@, 0, Seq::empty(), Seq::empty());
    }
    acc
}

/// Cuts one stage into its whitespace-separated words.
fn split_words(s: &str) -> (r: Vec<String>)
    ensures
        word_views(r@) == words_of(s@),
{
    let n = s.unicode_len();
    let mut acc: Vec<String> = Vec::new();
    let mut st: usize = 0;
    let mut i: usize = 0;
    proof {
        assert(s@.subrange(0, 0) =~= Seq::<char>::empty());
        assert(word_views(acc@) =~= Seq::<Seq<char>>::empty());
    }
    while i < n
        invariant
            n == s@.len(),
            st <= i <= n,
            words_of(s@) == split_ws_s(
                s@,
                i as int,
                s@.subrange(st as int, i as int),
                word_views(acc@),
            ),
        decreases n - i,
    {
        let c = s.get_char(i);
        let ghost acc0 = acc@;
        let ghost cur0 = s@.subrange(st as int, i as int);
        if c == ' ' || c == '\t' || c == '\n' || c == '\r' {
            if st < i {
                let w = s.substring_char(st, i).to_owned();
                acc.push(w);
                proof {
                    assert(word_views(acc@) =~= word_views(acc0).push(cur0));
                }
            }
            st = i + 1;
            proof {
                assert(s@.subrange(st as int, (i + 1) as int) =~= Seq::<char>::empty());
            }
        } else {
            proof {
                assert(s@.subrange(st as int, (i + 1) as int) =~= cur0.push(s@[i as int]));
            }
        }
        i = i + 1;
    }
    if st < n {
        let w = s.substring_char(st, n).to_owned();
        let ghost accf = acc@;
        acc.push(w);
        proof {
            assert(word_views(acc@) =~= word_views(accf).push(s@.subrange(st as int, n as int)));
        }
    }
    acc
}

/// Whether this word is exactly the single character `c`.
fn word_is_char(w: &String, c: char) -> (b: bool)
    ensures
        b == (w@.len() == 1 && w@[0] == c),
{
    let s = w.as_str();
    s.unicode_len() == 1 && s.get_char(0) == c
}

/// Index of the first `>` word, or the length if none.
fn find_gt_exec(ws: &Vec<String>) -> (r: usize)
    ensures
        r as int == find_gt(word_views(ws@), 0),
        r <= ws.len(),
{
    let n = ws.len();
    let mut i: usize = 0;
    while i < n
        invariant
            n == ws@.len(),
            i <= n,
            find_gt(word_views(ws@), 0) == find_gt(word_views(ws@), i as int),
        decreases n - i,
    {
        if word_is_char(&ws[i], '>') {
            proof {
                assert(is_gt_w(word_views(ws@)[i as int]));
            }
            return i;
        }
        i = i + 1;
    }
    i
}

/// Parses one trimmed command line into a spawn plan.
///
/// Returns exactly what [`parse_s`] prescribes: the stages with the
/// background marker and any redirection removed, or the first error in
/// marker order.
#[verifier::loop_isolation(false)]
pub fn parse(line: &str) -> (r: Result<SpawnPlan, ParseError>)
    ensures
        res_view(r) == parse_s(line@),
{
    let pieces = split_pipes(line);
    let ghost rawg = raw_stages_of(line@);
    let mut stages: Vec<Stage> = Vec::new();
    let mut pi: usize = 0;
    let np = pieces.len();
    while pi < np
        invariant
            np == pieces@.len(),
            pi <= np,
            word_views(pieces@) == pieces_of(line@),
            rawg == raw_stages_of(line@),
            stages@.len() == pi,
            forall|k: int| 0 <= k < pi ==> word_views(stages@[k].argv@) == rawg[k],
        decreases np - pi,
    {
        let argv = split_words(pieces[pi].as_str());
        stages.push(Stage { argv });
        pi = pi + 1;
    }
    proof {
        assert(stage_views(stages@) =~= rawg);
    }
    // A line with no word at all.
    if stages.len() == 1 && stages[0].argv.len() == 0 {
        return Err(ParseError::EmptyCommand);
    }
    // Trailing `&` marks the pipeline as background.
    let ghost allst = stages@;
    let ghost rawlast = rawg[rawg.len() - 1];
    let mut lastst = match stages.pop() {
        Some(x) => x,
        None => {
            return Err(ParseError::EmptyCommand);  // unreachable: at least one piece
        },
    };
    proof {
        assert(lastst == allst[allst.len() - 1]);
        assert(word_views(lastst.argv@) == rawlast);
    }
    let wl = lastst.argv.len();
    let background = wl > 0 && word_is_char(&lastst.argv[wl - 1], '&');
    if background {
        let ghost before = lastst.argv@;
        lastst.argv.pop();
        proof {
            assert(word_views(lastst.argv@) =~= rawlast.drop_last());
        }
    }
    let ghost stages1 = if background {
        rawg.update(rawg.len() - 1, rawg[rawg.len() - 1].drop_last())
    } else {
        rawg
    };
    let ghost lwg = stages1[stages1.len() - 1];
    proof {
        assert(word_views(lastst.argv@) =~= lwg);
    }
    // Output redirection in the last stage.
    let k = find_gt_exec(&lastst.argv);
    let nl = lastst.argv.len();
    if k < nl && k + 1 >= nl {
        return Err(ParseError::BadRedirect);
    }
    let mut redirect: Option<String> = None;
    let hadgt = k < nl;
    if hadgt {
        let t = lastst.argv.remove(k + 1);
        lastst.argv.remove(k);
        redirect = Some(t);
    }
    let ghost lw2g = if hadgt {
        lwg.remove(k + 1).remove(k as int)
    } else {
        lwg
    };
    proof {
        assert(word_views(lastst.argv@) =~= lw2g);
    }
    // A second marker in the last stage is malformed.
    if hadgt {
        let k2 = find_gt_exec(&lastst.argv);
        if k2 < lastst.argv.len() {
            return Err(ParseError::BadRedirect);
        }
    }
    stages.push(lastst);
    let ghost stages2 = stages1.update(stages1.len() - 1, lw2g);
    proof {
        assert(stage_views(stages@) =~= stages2);
    }
    // A marker in any earlier stage is malformed too.
    let ns = stages.len();
    let mut si: usize = 0;
    while si < ns
        invariant
            ns == stages@.len(),
            si <= ns,
            stage_views(stages@) == stages2,
            ns == stages2.len(),
            any_gt_front(stages2, 0) == any_gt_front(stages2, si as int),
        decreases ns - si,
    {
        if si + 1 < ns {
            let g = find_gt_exec(&stages[si].argv);
            if g < stages[si].argv.len() {
                proof {
                    assert(stages2[si as int] == word_views(stages@[si as int].argv@));
                    assert(has_gt(stages2[si as int]));
                    assert(any_gt_front(stages2, si as int));
                }
                return Err(ParseError::BadRedirect);
            }
        }
        si = si + 1;
    }
    // Every stage must still hold a program word.
    let mut ei: usize = 0;
    while ei < ns
        invariant
            ns == stages@.len(),
            ei <= ns,
            stage_views(stages@) == stages2,
            ns == stages2.len(),
            any_empty(stages2, 0) == any_empty(stages2, ei as int),
        decreases ns - ei,
    {
        if stages[ei].argv.len() == 0 {
            proof {
                assert(stages2[ei as int] == word_views(stages@[ei as int].argv@));
                assert(stages2[ei as int].len() == 0);
                assert(any_empty(stages2, ei as int));
            }
            return Err(ParseError::EmptyStage);
        }
        ei = ei + 1;
    }
    let plan = SpawnPlan { stages, background, redirect, line: line.to_owned() };
    Ok(plan)
}

/// The shell commands executed inside the worker itself.
#[derive(Clone, Copy, Debug, PartialEq, Eq, Structural)]
pub enum BuiltinName {
    Cd,
    Exit,
    Jobs,
    Fg,
    Bg,
}

/// Which builtin, if any, a plan invokes: a builtin name must be the
/// entire first word of a single-stage pipeline.
pub open spec fn builtin_of_s(p: PlanS) -> Option<BuiltinName> {
    if p.stages.len() == 1 && p.stages[0].len() > 0 {
        let w = p.stages[0][0];
        if w == seq!['c', 'd'] {
            Some(BuiltinName::Cd)
        } else if w == seq!['e', 'x', 'i', 't'] {
            Some(BuiltinName::Exit)
        } else if w == seq!['j', 'o', 'b', 's'] {
            Some(BuiltinName::Jobs)
        } else if w == seq!['f', 'g'] {
            Some(BuiltinName::Fg)
        } else if w == seq!['b', 'g'] {
            Some(BuiltinName::Bg)
        } else {
            None
        }
    } else {
        None
    }
}

/// Recognizes the builtin a plan invokes, if any.
pub fn builtin_of(p: &SpawnPlan) -> (r: Option<BuiltinName>)
    ensures
        r == builtin_of_s(plan_view(*p)),
{
    if p.stages.len() != 1 {
        return None;
    }
    if p.stages[0].argv.len() == 0 {
        return None;
    }
    let w = p.stages[0].argv[0].as_str();
    let ghost wg = plan_view(*p).stages[0][0];
    proof {
        assert(wg == w@);
    }
    let n = w.unicode_len();
    if n == 2 {
        let c0 = w.get_char(0);
        let c1 = w.get_char(1);
        if c0 == 'c' && c1 == 'd' {
            proof {
                assert(wg =~= seq!['c', 'd']);
            }
            return Some(BuiltinName::Cd);
        }
        if c0 == 'f' && c1 == 'g' {
            proof {
                assert(wg =~= seq!['f', 'g']);
            }
            return Some(BuiltinName::Fg);
        }
        if c0 == 'b' && c1 == 'g' {
            proof {
                assert(wg =~= seq!['b', 'g']);
            }
            return Some(BuiltinName::Bg);
        }
        return None;
    }
    if n == 4 {
        let c0 = w.get_char(0);
        let c1 = w.get_char(1);
        let c2 = w.get_char(2);
        let c3 = w.get_char(3);
        if c0 == 'e' && c1 == 'x' && c2 == 'i' && c3 == 't' {
            proof {
                assert(wg =~= seq!['e', 'x', 'i', 't']);
            }
            return Some(BuiltinName::Exit);
        }
        if c0 == 'j' && c1 == 'o' && c2 == 'b' && c3 == 's' {
            proof {
                assert(wg =~= seq!['j', 'o', 'b', 's']);
            }
            return Some(BuiltinName::Jobs);
        }
        return None;
    }
    None
}

/// A digit character.
pub open spec fn is_digit(c: char) -> bool {
    48 <= c as u32 && c as u32 <= 57
}

/// The value of a digit character.
pub open spec fn digit_val(c: char) -> int {
    c as u32 - 48
}

/// The value of a digit string read in base ten.
pub open spec fn num_val(s: Seq<char>) -> int
    decreases s.len(),
{
    if s.len() == 0 {
        0
    } else {
        num_val(s.drop_last()) * 10 + digit_val(s.last())
    }
}

/// Whether every character is a digit.
pub open spec fn all_digits(s: Seq<char>) -> bool {
    forall|k: int| 0 <= k < s.len() ==> is_digit(s[k])
}

/// What reading a decimal word must yield: its value, when the word is a
/// non-empty digit string whose value fits in 64 bits.
pub open spec fn parse_num_s(s: Seq<char>) -> Option<int> {
    if s.len() > 0 && all_digits(s) && num_val(s) <= u64::MAX {
        Some(num_val(s))
    } else {
        None
    }
}

/// The value of a digit string is never negative.
proof fn lemma_num_val_nonneg(s: Seq<char>)
    requires
        all_digits(s),
    ensures
        num_val(s) >= 0,
    decreases s.len(),
{
    if s.len() > 0 {
        assert(all_digits(s.drop_last()));
        lemma_num_val_nonneg(s.drop_last());
    }
}

/// Reading more digits can only grow the value.
proof fn lemma_num_val_grows(s: Seq<char>, i: int)
    requires
        all_digits(s),
        0 <= i <= s.len(),
    ensures
        num_val(s) >= num_val(s.subrange(0, i)),
    decreases s.len() - i,
{
    if i == s.len() {
        assert(s.subrange(0, i) =~= s);
    } else {
        let a = s.subrange(0, i);
        let b = s.subrange(0, i + 1);
        assert(b.drop_last() =~= a);
        assert(all_digits(a));
        lemma_num_val_nonneg(a);
        lemma_num_val_grows(s, i + 1);
    }
}

/// Reads a decimal word; `None` when the word is empty, holds a
/// non-digit, or does not fit in 64 bits.
pub fn parse_num(w: &str) -> (r: Option<u64>)
    ensures
        match r {
            Some(v) => parse_num_s(w@) == Some(v as int),
            None => parse_num_s(w@) is None,
        },
{
    let n = w.unicode_len();
    if n == 0 {
        return None;
    }
    let mut acc: u128 = 0;
    let mut i: usize = 0;
    proof {
        assert(w@.subrange(0, 0) =~= Seq::<char>::empty());
    }
    while i < n
        invariant
            n == w@.len(),
            i <= n,
            n > 0,
            all_digits(w@.subrange(0, i as int)),
            acc == num_val(w@.subrange(0, i as int)),
            acc <= u64::MAX,
        decreases n - i,
    {
        let c = w.get_char(i);
        let cv = c as u32;
        if cv < 48 || cv > 57 {
            proof {
                assert(!is_digit(w@[i as int]));
            }
            return None;
        }
        let d: u128 = (cv - 48) as u128;
        let ghost pre = w@.subrange(0, i as int);
        proof {
            assert(w@.subrange(0, (i + 1) as int) =~= pre.push(w@[i as int]));
            assert(pre.push(w@[i as int]).drop_last() =~= pre);
        }
        acc = acc * 10 + d;
        if acc > u64::MAX as u128 {
            proof {
                if all_digits(w@) {
                    lemma_num_val_grows(w@, (i + 1) as int);
                }
            }
            return None;
        }
        i = i + 1;
    }
    proof {
        assert(w@.subrange(0, n as int) =~= w@);
    }
    Some(acc as u64)
}

/// What reading a `%N` job reference must yield.
pub open spec fn job_ref_s(w: Seq<char>) -> Option<int> {
    if w.len() >= 2 && w[0] == '%' {
        parse_num_s(w.subrange(1, w.len() as int))
    } else {
        None
    }
}

/// Reads a `%N` job reference.
pub fn job_ref(w: &str) -> (r: Option<u64>)
    ensures
        match r {
            Some(v) => job_ref_s(w@) == Some(v as int),
            None => job_ref_s(w@) is None,
        },
{
    let n = w.unicode_len();
    if n >= 2 && w.get_char(0) == '%' {
        let rest = w.substring_char(1, n);
        parse_num(rest)
    } else {
        None
    }
}

} // verus!
