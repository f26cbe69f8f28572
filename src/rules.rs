//! Rules of the agent and the line-oriented text form they are written in.
use vstd::prelude::*;
use crate::geometry::{Dir, Nearby, dir_index};

verus! {

/// What a rule asks of one neighbouring cell.
#[derive(PartialEq, Eq, Structural, Debug, Clone, Copy)]
pub enum SpaceCondition {
    Clear,
    Wall,
    Any,
}

/// Whether a cell that is (`wall`) or is not a wall meets condition `c`.
pub open spec fn cond_holds(c: SpaceCondition, wall: bool) -> bool {
    match c {
        SpaceCondition::Any => true,
        SpaceCondition::Wall => wall,
        SpaceCondition::Clear => !wall,
    }
}

/// One transition: in state `match_state`, with neighbours meeting `match_nearby`
/// (in the order N, E, W, S), move towards `go` and take on state `state`.
#[derive(Debug, Clone, Copy)]
pub struct Rule {
    pub match_state: u32,
    pub match_nearby: [SpaceCondition; 4],
    pub go: Dir,
    pub state: u32,
}

impl Rule {
    /// Whether the rule applies in state `st` with neighbours `nb`.
    pub open spec fn applies(self, st: u32, nb: Nearby) -> bool {
        &&& self.match_state == st
        &&& forall|i: int| 0 <= i < 4 ==> cond_holds(#[trigger] self.match_nearby@[i], nb.0@[i])
    }

    /// Whether the rule applies in state `current_state` with neighbours `nearby`.
    pub fn matches(&self, current_state: u32, nearby: Nearby) -> (r: bool)
        ensures
            r == self.applies(current_state, nearby),
    {
        if self.match_state == current_state {
            let mut i: usize = 0;
            while i < 4
                invariant
                    0 <= i <= 4,
                    forall|k: int| 0 <= k < i ==> cond_holds(#[trigger] self.match_nearby@[k], nearby.0@[k]),
                decreases 4 - i,
            {
                let ok = match self.match_nearby[i] {
                    SpaceCondition::Any => true,
                    SpaceCondition::Wall => nearby.0[i],
                    SpaceCondition::Clear => !nearby.0[i],
                };
                if !ok {
                    return false;
                }
                i += 1;
            }
            true
        } else {
            false
        }
    }
}

/// Whitespace that may surround a line's content.
pub open spec fn is_ws(c: char) -> bool {
    c == ' ' || c == '\t' || c == '\n' || c == '\r' || c == '\x0C'
}

/// A decimal digit.
pub open spec fn is_digit(c: char) -> bool {
    '0' <= c <= '9'
}

/// The first index from `i` on that does not hold whitespace.
pub open spec fn skip_ws(l: Seq<char>, i: int) -> int
    decreases l.len() - i,
{
    if 0 <= i < l.len() && is_ws(l[i]) {
        skip_ws(l, i + 1)
    } else {
        i
    }
}

/// The first index from `i` on that does not hold a space.
pub open spec fn skip_spaces(l: Seq<char>, i: int) -> int
    decreases l.len() - i,
{
    if 0 <= i < l.len() && l[i] == ' ' {
        skip_spaces(l, i + 1)
    } else {
        i
    }
}

/// The first index from `i` on that does not hold a digit.
pub open spec fn skip_digits(l: Seq<char>, i: int) -> int
    decreases l.len() - i,
{
    if 0 <= i < l.len() && is_digit(l[i]) {
        skip_digits(l, i + 1)
    } else {
        i
    }
}

/// The number written in decimal by `l[i..j]`.
pub open spec fn digits_val(l: Seq<char>, i: int, j: int) -> nat
    decreases j - i,
{
    if j <= i {
        0
    } else {
        digits_val(l, i, j - 1) * 10 + (l[j - 1] as nat - '0' as nat) as nat
    }
}

/// The condition written by `c` in the place of direction `letter`: the letter
/// itself asks for a wall, `x` for a clear cell, `*` for either.
pub open spec fn cond_of(c: char, letter: char) -> Option<SpaceCondition> {
    if c == letter {
        Some(SpaceCondition::Wall)
    } else if c == 'x' {
        Some(SpaceCondition::Clear)
    } else if c == '*' {
        Some(SpaceCondition::Any)
    } else {
        None
    }
}

/// The direction written by the letter `c`.
pub open spec fn dir_of(c: char) -> Option<Dir> {
    if c == 'N' {
        Some(Dir::N)
    } else if c == 'E' {
        Some(Dir::E)
    } else if c == 'W' {
        Some(Dir::W)
    } else if c == 'S' {
        Some(Dir::S)
    } else {
        None
    }
}

/// The rule that line `l` writes, if it has the form
/// `<state> <N><E><W><S> -> <dir> <state>` between optional whitespace, with one
/// or more spaces at each gap and both states fitting in a `u32`.
pub open spec fn line_rule(l: Seq<char>) -> Option<Rule> {
    let a = skip_ws(l, 0);
    let b = skip_digits(l, a);
    let c = skip_spaces(l, b);
    let d = skip_spaces(l, c + 4);
    let e = skip_spaces(l, d + 2);
    let f = skip_spaces(l, e + 1);
    let g = skip_digits(l, f);
    if a < b && b < c && c + 4 < d && d + 2 <= l.len() && l[d] == '-' && l[d + 1] == '>' && d
        + 2 < e && e < l.len() && e + 1 < f && f < g && skip_ws(l, g) == l.len()
        && digits_val(l, a, b) <= u32::MAX && digits_val(l, f, g) <= u32::MAX && cond_of(
        l[c],
        'N',
    ) is Some && cond_of(l[c + 1], 'E') is Some && cond_of(l[c + 2], 'W') is Some && cond_of(
        l[c + 3],
        'S',
    ) is Some && dir_of(l[e]) is Some {
        Some(
            Rule {
                match_state: digits_val(l, a, b) as u32,
                match_nearby: [
                    cond_of(l[c], 'N')->0,
                    cond_of(l[c + 1], 'E')->0,
                    cond_of(l[c + 2], 'W')->0,
                    cond_of(l[c + 3], 'S')->0,
                ],
                go: dir_of(l[e])->0,
                state: digits_val(l, f, g) as u32,
            },
        )
    } else {
        None
    }
}

/// What line `l` contributes: `Some(None)` for a blank line or a comment (first
/// non-whitespace character `#`), `Some(Some(r))` for a rule, `None` when malformed.
pub open spec fn line_parse(l: Seq<char>) -> Option<Option<Rule>> {
    let a = skip_ws(l, 0);
    if a >= l.len() {
        Some(None)
    } else if l[a] == '#' {
        Some(None)
    } else {
        match line_rule(l) {
            Some(r) => Some(Some(r)),
            None => None,
        }
    }
}


/// Appending a digit never makes a number smaller.
proof fn lemma_digits_val_grows(l: Seq<char>, i: int, k: int, j: int)
    requires
        i <= k <= j,
    ensures
        digits_val(l, i, k) <= digits_val(l, i, j),
    decreases j - k,
{
    if k < j {
        lemma_digits_val_grows(l, i, k, j - 1);
    }
}

/// The first index from `i` on that does not hold whitespace.
fn skip_ws_exec(l: &str, n: usize, i: usize) -> (r: usize)
    requires
        n == l@.len(),
        i <= n,
    ensures
        r == skip_ws(l@, i as int),
        i <= r <= n,
{
    let mut j = i;
    while j < n && is_ws_exec(l.get_char(j))
        invariant
            n == l@.len(),
            i <= j <= n,
            skip_ws(l@, j as int) == skip_ws(l@, i as int),
        decreases n - j,
    {
        j += 1;
    }
    j
}

/// The first index from `i` on that does not hold a space.
fn skip_spaces_exec(l: &str, n: usize, i: usize) -> (r: usize)
    requires
        n == l@.len(),
        i <= n,
    ensures
        r == skip_spaces(l@, i as int),
        i <= r <= n,
{
    let mut j = i;
    while j < n && l.get_char(j) == ' '
        invariant
            n == l@.len(),
            i <= j <= n,
            skip_spaces(l@, j as int) == skip_spaces(l@, i as int),
        decreases n - j,
    {
        j += 1;
    }
    j
}

/// Reads the digits that start at `i`: where they end, and their value when it fits in a `u32`.
fn read_digits(l: &str, n: usize, i: usize) -> (r: (usize, Option<u32>))
    requires
        n == l@.len(),
        i <= n,
    ensures
        r.0 == skip_digits(l@, i as int),
        i <= r.0 <= n,
        r.1 is Some <==> digits_val(l@, i as int, r.0 as int) <= u32::MAX,
        r.1 matches Some(v) ==> v == digits_val(l@, i as int, r.0 as int),
{
    let mut j = i;
    let mut val: u64 = 0;
    let mut fits = true;
    while j < n && is_digit_exec(l.get_char(j))
        invariant
            n == l@.len(),
            i <= j <= n,
            skip_digits(l@, j as int) == skip_digits(l@, i as int),
            fits ==> val == digits_val(l@, i as int, j as int),
            fits ==> val <= u32::MAX,
            !fits ==> digits_val(l@, i as int, j as int) > u32::MAX,
        decreases n - j,
    {
        let c = l.get_char(j);
        if fits {
            let d = (c as u32 - '0' as u32) as u64;
            val = val * 10 + d;
            if val > u32::MAX as u64 {
                fits = false;
            }
        }
        j += 1;
        proof {
            if !fits {
                lemma_digits_val_grows(l@, i as int, j - 1, j as int);
            }
        }
    }
    if fits {
        (j, Some(val as u32))
    } else {
        (j, None)
    }
}

/// Whitespace that may surround a line's content.
fn is_ws_exec(c: char) -> (r: bool)
    ensures
        r == is_ws(c),
{
    c == ' ' || c == '\t' || c == '\n' || c == '\r' || c == '\x0C'
}

/// A decimal digit.
fn is_digit_exec(c: char) -> (r: bool)
    ensures
        r == is_digit(c),
{
    '0' <= c && c <= '9'
}

/// The condition written by `c` in the place of direction `letter`.
fn cond_of_exec(c: char, letter: char) -> (r: Option<SpaceCondition>)
    ensures
        r == cond_of(c, letter),
{
    if c == letter {
        Some(SpaceCondition::Wall)
    } else if c == 'x' {
        Some(SpaceCondition::Clear)
    } else if c == '*' {
        Some(SpaceCondition::Any)
    } else {
        None
    }
}

/// The direction written by the letter `c`.
fn dir_of_exec(c: char) -> (r: Option<Dir>)
    ensures
        r == dir_of(c),
{
    if c == 'N' {
        Some(Dir::N)
    } else if c == 'E' {
        Some(Dir::E)
    } else if c == 'W' {
        Some(Dir::W)
    } else if c == 'S' {
        Some(Dir::S)
    } else {
        None
    }
}

/// The rule that line `l` writes, if it has the rule form.
fn read_rule(l: &str) -> (r: Option<Rule>)
    ensures
        r == line_rule(l@),
{
    let n = l.unicode_len();
    let a = skip_ws_exec(l, n, 0);
    let (b, first) = read_digits(l, n, a);
    if !(a < b) || first.is_none() {
        return None;
    }
    let c = skip_spaces_exec(l, n, b);
    if !(b < c) || n - c < 5 {
        return None;
    }
    let cn = cond_of_exec(l.get_char(c), 'N');
    let ce = cond_of_exec(l.get_char(c + 1), 'E');
    let cw = cond_of_exec(l.get_char(c + 2), 'W');
    let cs = cond_of_exec(l.get_char(c + 3), 'S');
    if cn.is_none() || ce.is_none() || cw.is_none() || cs.is_none() {
        return None;
    }
    let d = skip_spaces_exec(l, n, c + 4);
    if !(c + 4 < d) || n - d < 2 || l.get_char(d) != '-' || l.get_char(d + 1) != '>' {
        return None;
    }
    let e = skip_spaces_exec(l, n, d + 2);
    if !(d + 2 < e) || !(e < n) {
        return None;
    }
    let go = dir_of_exec(l.get_char(e));
    if go.is_none() {
        return None;
    }
    let f = skip_spaces_exec(l, n, e + 1);
    if !(e + 1 < f) {
        return None;
    }
    let (g, second) = read_digits(l, n, f);
    if !(f < g) || second.is_none() {
        return None;
    }
    let h = skip_ws_exec(l, n, g);
    if h != n {
        return None;
    }
    let rule = Rule {
        match_state: first.unwrap(),
        match_nearby: [cn.unwrap(), ce.unwrap(), cw.unwrap(), cs.unwrap()],
        go: go.unwrap(),
        state: second.unwrap(),
    };
    assert(rule.match_nearby@ =~= line_rule(l@)->0.match_nearby@);
    Some(rule)
}

impl Rule {
    /// Reads one line: `Ok(None)` for a blank line or a comment, `Ok(Some(rule))`
    /// for a rule, and an error naming the line otherwise.
    pub fn parse(line: &str) -> (r: Result<Option<Rule>, String>)
        ensures
            match line_parse(line@) {
                Some(x) => r == Ok::<Option<Rule>, String>(x),
                None => r matches Err(e) && e@ == "Cannot parse rule "@ + line@,
            },
    {
        let n = line.unicode_len();
        let a = skip_ws_exec(line, n, 0);
        if a >= n {
            return Ok(None);
        }
        if line.get_char(a) == '#' {
            return Ok(None);
        }
        match read_rule(line) {
            Some(rule) => Ok(Some(rule)),
            None => {
                let mut e = String::from_str("Cannot parse rule ");
                e.append(line);
                Err(e)
            },
        }
    }
}


/// The first index from `i` on that holds a line feed, or the length of `t`.
pub open spec fn find_nl(t: Seq<char>, i: int) -> int
    decreases t.len() - i,
{
    if 0 <= i < t.len() && t[i] != '\n' {
        find_nl(t, i + 1)
    } else {
        i
    }
}

/// The line of `t` that starts at `i`: up to the next line feed, without the
/// carriage return that may stand before that line feed.
pub open spec fn line_at(t: Seq<char>, i: int) -> Seq<char> {
    let e = find_nl(t, i);
    if i < e < t.len() && t[e - 1] == '\r' {
        t.subrange(i, e - 1)
    } else {
        t.subrange(i, e)
    }
}

/// The rules written on the lines of `t` from the line that starts at `i` on, in order.
pub open spec fn rules_from(t: Seq<char>, i: int) -> Seq<Rule>
    decreases t.len() - i,
{
    let here = match line_parse(line_at(t, i)) {
        Some(Some(r)) => seq![r],
        _ => Seq::empty(),
    };
    let e = find_nl(t, i);
    if 0 <= i <= e < t.len() {
        here + rules_from(t, e + 1)
    } else {
        here
    }
}

/// The error text for the lines of `t` from the line that starts at `i` on: one
/// message, ended by a line feed, for each malformed line, in order.
pub open spec fn errors_from(t: Seq<char>, i: int) -> Seq<char>
    decreases t.len() - i,
{
    let l = line_at(t, i);
    let here = if line_parse(l) is None {
        "Cannot parse rule "@ + l + seq!['\n']
    } else {
        Seq::empty()
    };
    let e = find_nl(t, i);
    if 0 <= i <= e < t.len() {
        here + errors_from(t, e + 1)
    } else {
        here
    }
}

/// The first index from `i` on that holds a line feed, or `n`.
fn find_nl_exec(t: &str, n: usize, i: usize) -> (r: usize)
    requires
        n == t@.len(),
        i <= n,
    ensures
        r == find_nl(t@, i as int),
        i <= r <= n,
{
    let mut j = i;
    while j < n && t.get_char(j) != '\n'
        invariant
            n == t@.len(),
            i <= j <= n,
            find_nl(t@, j as int) == find_nl(t@, i as int),
        decreases n - j,
    {
        j += 1;
    }
    j
}

impl Rule {
    /// Reads every line of `text`. When all are blank, comments or rules, the
    /// rules come back in order; otherwise the error holds one message per
    /// malformed line.
    pub fn parse_all(text: &str) -> (r: Result<Vec<Rule>, String>)
        ensures
            errors_from(text@, 0).len() == 0 ==> (r matches Ok(v) && v@ == rules_from(text@, 0)),
            errors_from(text@, 0).len() > 0 ==> (r matches Err(e) && e@ == errors_from(text@, 0)),
    {
        let n = text.unicode_len();
        let mut rules: Vec<Rule> = Vec::new();
        let mut errors = String::new();
        let mut i: usize = 0;
        let mut done = false;
        while !done
            invariant
                n == text@.len(),
                i <= n,
                !done ==> rules@ + rules_from(text@, i as int) == rules_from(text@, 0),
                !done ==> errors@ + errors_from(text@, i as int) == errors_from(text@, 0),
                done ==> rules@ == rules_from(text@, 0),
                done ==> errors@ == errors_from(text@, 0),
            decreases 2 * (n - i) + if done {
                0int
            } else {
                1int
            },
        {
            let e = find_nl_exec(text, n, i);
            let end = if i < e && e < n && text.get_char(e - 1) == '\r' {
                e - 1
            } else {
                e
            };
            let line = text.substring_char(i, end);
            assert(line@ == line_at(text@, i as int));
            let ghost before_rules = rules@;
            let ghost before_errors = errors@;
            match Rule::parse(line) {
                Ok(Some(rule)) => {
                    rules.push(rule);
                },
                Ok(None) => {},
                Err(msg) => {
                    errors.append(msg.as_str());
                    errors.append("\n");
                },
            }
            proof {
                let here_r = match line_parse(line@) {
                    Some(Some(r)) => seq![r],
                    _ => Seq::<Rule>::empty(),
                };
                assert(rules@ == before_rules + here_r);
                let here_e = if line_parse(line@) is None {
                    "Cannot parse rule "@ + line@ + seq!['\n']
                } else {
                    Seq::<char>::empty()
                };
                reveal_strlit("\n");
                assert(errors@ =~= before_errors + here_e);
                if e < n {
                    assert(rules_from(text@, i as int) == here_r + rules_from(text@, e + 1));
                    assert(rules@ + rules_from(text@, e + 1) =~= before_rules + rules_from(text@, i as int));
                    assert(errors@ + errors_from(text@, e + 1) =~= before_errors + errors_from(text@, i as int));
                } else {
                    assert(rules@ =~= before_rules + rules_from(text@, i as int));
                    assert(errors@ =~= before_errors + errors_from(text@, i as int));
                }
            }
            if e < n {
                i = e + 1;
            } else {
                done = true;
            }
        }
        if errors.unicode_len() > 0 {
            Err(errors)
        } else {
            Ok(rules)
        }
    }
}

} // verus!
