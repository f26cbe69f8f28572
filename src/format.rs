//! The text form of rules, and the proof that reading it back gives the same rules.
use vstd::prelude::*;
use crate::geometry::{Dir, Nearby};
use crate::game::{Game, MapState, Sim};
use crate::grid::count_of;
use crate::rules::{
    Rule,
    SpaceCondition,
    cond_of,
    digits_val,
    dir_of,
    errors_from,
    find_nl,
    is_digit,
    line_at,
    line_parse,
    line_rule,
    rules_from,
    skip_digits,
    skip_spaces,
    skip_ws,
};

verus! {

/// The decimal digit for `d < 10`.
pub open spec fn digit_char(d: nat) -> char {
    if d == 0 {
        '0'
    } else if d == 1 {
        '1'
    } else if d == 2 {
        '2'
    } else if d == 3 {
        '3'
    } else if d == 4 {
        '4'
    } else if d == 5 {
        '5'
    } else if d == 6 {
        '6'
    } else if d == 7 {
        '7'
    } else if d == 8 {
        '8'
    } else {
        '9'
    }
}

/// `n` written in decimal, without leading zeros.
pub open spec fn decimal(n: nat) -> Seq<char>
    decreases n,
{
    if n < 10 {
        seq![digit_char(n)]
    } else {
        decimal(n / 10).push(digit_char(n % 10))
    }
}

/// The letter that names `d`.
pub open spec fn dir_letter(d: Dir) -> char {
    match d {
        Dir::N => 'N',
        Dir::E => 'E',
        Dir::W => 'W',
        Dir::S => 'S',
    }
}

/// How condition `c` is written in the place of direction `letter`.
pub open spec fn cond_char(c: SpaceCondition, letter: char) -> char {
    match c {
        SpaceCondition::Wall => letter,
        SpaceCondition::Clear => 'x',
        SpaceCondition::Any => '*',
    }
}

/// The line that writes `r`: `<state> <N><E><W><S>  -> <dir> <state>`, with
/// two spaces before the arrow.
pub open spec fn rule_text(r: Rule) -> Seq<char> {
    decimal(r.match_state as nat) + seq![
        ' ',
        cond_char(r.match_nearby@[0], 'N'),
        cond_char(r.match_nearby@[1], 'E'),
        cond_char(r.match_nearby@[2], 'W'),
        cond_char(r.match_nearby@[3], 'S'),
        ' ',
        ' ',
        '-',
        '>',
        ' ',
        dir_letter(r.go),
        ' ',
    ] + decimal(r.state as nat)
}

/// The rules `rs` written one per line, each line ended by a line feed.
pub open spec fn rules_text(rs: Seq<Rule>) -> Seq<char>
    decreases rs.len(),
{
    if rs.len() == 0 {
        Seq::empty()
    } else {
        rule_text(rs[0]) + seq!['\n'] + rules_text(rs.drop_first())
    }
}

/// Appends the digit `d`.
fn push_digit(out: &mut String, d: u32)
    requires
        d < 10,
    ensures
        final(out)@ == old(out)@.push(digit_char(d as nat)),
{
    let s: &str = if d == 0 {
        "0"
    } else if d == 1 {
        "1"
    } else if d == 2 {
        "2"
    } else if d == 3 {
        "3"
    } else if d == 4 {
        "4"
    } else if d == 5 {
        "5"
    } else if d == 6 {
        "6"
    } else if d == 7 {
        "7"
    } else if d == 8 {
        "8"
    } else {
        "9"
    };
    proof {
        reveal_strlit("0");
        reveal_strlit("1");
        reveal_strlit("2");
        reveal_strlit("3");
        reveal_strlit("4");
        reveal_strlit("5");
        reveal_strlit("6");
        reveal_strlit("7");
        reveal_strlit("8");
        reveal_strlit("9");
    }
    out.append(s);
    assert(out@ =~= old(out)@.push(digit_char(d as nat)));
}

/// Appends `n` in decimal.
fn push_decimal(out: &mut String, n: u32)
    ensures
        final(out)@ == old(out)@ + decimal(n as nat),
    decreases n,
{
    if n >= 10 {
        push_decimal(out, n / 10);
    }
    push_digit(out, n % 10);
    assert(out@ =~= old(out)@ + decimal(n as nat));
}

/// Appends how condition `c` is written in the place of direction `d`.
fn push_cond(out: &mut String, c: SpaceCondition, d: Dir)
    ensures
        final(out)@ == old(out)@.push(cond_char(c, dir_letter(d))),
{
    match c {
        SpaceCondition::Wall => push_dir(out, d),
        SpaceCondition::Clear => {
            proof {
                reveal_strlit("x");
            }
            out.append("x");
            assert(out@ =~= old(out)@.push('x'));
        },
        SpaceCondition::Any => {
            proof {
                reveal_strlit("*");
            }
            out.append("*");
            assert(out@ =~= old(out)@.push('*'));
        },
    }
}

/// Appends the letter that names `d`.
fn push_dir(out: &mut String, d: Dir)
    ensures
        final(out)@ == old(out)@.push(dir_letter(d)),
{
    let s: &str = match d {
        Dir::N => "N",
        Dir::E => "E",
        Dir::W => "W",
        Dir::S => "S",
    };
    proof {
        reveal_strlit("N");
        reveal_strlit("E");
        reveal_strlit("W");
        reveal_strlit("S");
    }
    out.append(s);
    assert(out@ =~= old(out)@.push(dir_letter(d)));
}

impl Rule {
    /// The line that writes this rule.
    pub fn to_text(&self) -> (r: String)
        ensures
            r@ == rule_text(*self),
    {
        let mut out = String::new();
        push_decimal(&mut out, self.match_state);
        proof {
            reveal_strlit(" ");
            reveal_strlit("  -> ");
        }
        out.append(" ");
        push_cond(&mut out, self.match_nearby[0], Dir::N);
        push_cond(&mut out, self.match_nearby[1], Dir::E);
        push_cond(&mut out, self.match_nearby[2], Dir::W);
        push_cond(&mut out, self.match_nearby[3], Dir::S);
        out.append("  -> ");
        push_dir(&mut out, self.go);
        out.append(" ");
        push_decimal(&mut out, self.state);
        assert(out@ =~= rule_text(*self));
        out
    }
}

/// The rules written one per line, each line ended by a line feed.
pub fn rules_to_text(rules: &Vec<Rule>) -> (r: String)
    ensures
        r@ == rules_text(rules@),
{
    let mut out = String::new();
    let mut k: usize = 0;
    proof {
        reveal_strlit("\n");
        assert(rules@.subrange(0, rules@.len() as int) =~= rules@);
    }
    while k < rules.len()
        invariant
            0 <= k <= rules@.len(),
            out@ + rules_text(rules@.subrange(k as int, rules@.len() as int)) == rules_text(rules@),
        decreases rules.len() - k,
    {
        let line = rules[k].to_text();
        let ghost before = out@;
        out.append(line.as_str());
        out.append("\n");
        proof {
            reveal_strlit("\n");
            let rest = rules@.subrange(k as int, rules@.len() as int);
            assert(rest.drop_first() =~= rules@.subrange(k as int + 1, rules@.len() as int));
            assert(out@ + rules_text(rest.drop_first()) =~= before + rules_text(rest));
        }
        k += 1;
    }
    proof {
        assert(rules@.subrange(k as int, rules@.len() as int) =~= Seq::<Rule>::empty());
        assert(out@ =~= out@ + Seq::<char>::empty());
    }
    out
}


/// Decimal text is made of digits only, and is never empty.
proof fn lemma_decimal_digits(n: nat)
    ensures
        decimal(n).len() >= 1,
        forall|k: int| 0 <= k < decimal(n).len() ==> is_digit(#[trigger] decimal(n)[k]),
    decreases n,
{
    if n >= 10 {
        lemma_decimal_digits(n / 10);
    }
}

/// Reading back the decimal text of `n`, wherever it stands, gives `n`.
proof fn lemma_digits_val_decimal(l: Seq<char>, o: int, n: nat)
    requires
        0 <= o,
        o + decimal(n).len() <= l.len(),
        l.subrange(o, o + decimal(n).len()) == decimal(n),
    ensures
        digits_val(l, o, o + decimal(n).len()) == n,
    decreases n,
{
    let k = decimal(n).len() as int;
    assert(l[o + k - 1] == decimal(n)[k - 1]);
    assert(digits_val(l, o, o) == 0);
    if n >= 10 {
        let p = decimal(n / 10);
        assert(l.subrange(o, o + p.len()) =~= l.subrange(o, o + k).subrange(0, p.len() as int));
        assert(decimal(n).subrange(0, p.len() as int) =~= p);
        lemma_digits_val_decimal(l, o, n / 10);
    }
}

/// A run of digits is skipped as a whole.
proof fn lemma_skip_digits_run(l: Seq<char>, i: int, j: int)
    requires
        0 <= i <= j <= l.len(),
        forall|k: int| i <= k < j ==> is_digit(#[trigger] l[k]),
    ensures
        skip_digits(l, i) == skip_digits(l, j),
    decreases j - i,
{
    if i < j {
        lemma_skip_digits_run(l, i + 1, j);
    }
}

/// Reading the condition written for `c` in the place of `letter` gives `c` back.
proof fn lemma_cond_round_trip(c: SpaceCondition, letter: char)
    requires
        letter == 'N' || letter == 'E' || letter == 'W' || letter == 'S',
    ensures
        cond_of(cond_char(c, letter), letter) == Some(c),
        cond_char(c, letter) != ' ',
        cond_char(c, letter) != '\n',
{
}

/// The line written for a rule holds no line feed, and does not end in a carriage return.
proof fn lemma_rule_text_one_line(r: Rule)
    ensures
        forall|k: int| 0 <= k < rule_text(r).len() ==> #[trigger] rule_text(r)[k] != '\n',
        rule_text(r).len() >= 1,
        rule_text(r).last() != '\r',
{
    lemma_decimal_digits(r.match_state as nat);
    lemma_decimal_digits(r.state as nat);
    lemma_cond_round_trip(r.match_nearby@[0], 'N');
    lemma_cond_round_trip(r.match_nearby@[1], 'E');
    lemma_cond_round_trip(r.match_nearby@[2], 'W');
    lemma_cond_round_trip(r.match_nearby@[3], 'S');
    let l = rule_text(r);
    let d1 = decimal(r.match_state as nat);
    let d2 = decimal(r.state as nat);
    assert forall|k: int| 0 <= k < l.len() implies #[trigger] l[k] != '\n' by {
        if k < d1.len() {
            assert(l[k] == d1[k]);
        } else if k >= d1.len() + 12 {
            assert(l[k] == d2[k - d1.len() - 12]);
        }
    }
    assert(l.last() == d2[d2.len() - 1]);
}

/// Reading the line written for a rule gives the rule back.
pub proof fn lemma_rule_line_round_trip(r: Rule)
    ensures
        line_parse(rule_text(r)) == Some(Some(r)),
{
    let l = rule_text(r);
    let d1 = decimal(r.match_state as nat);
    let d2 = decimal(r.state as nat);
    let n1 = d1.len() as int;
    lemma_decimal_digits(r.match_state as nat);
    lemma_decimal_digits(r.state as nat);
    lemma_cond_round_trip(r.match_nearby@[0], 'N');
    lemma_cond_round_trip(r.match_nearby@[1], 'E');
    lemma_cond_round_trip(r.match_nearby@[2], 'W');
    lemma_cond_round_trip(r.match_nearby@[3], 'S');
    assert(l.subrange(0, n1) =~= d1);
    assert(l.subrange(n1 + 12, l.len() as int) =~= d2);
    assert(l[0] == d1[0]);
    assert(skip_ws(l, 0) == 0);
    assert forall|k: int| 0 <= k < n1 implies is_digit(#[trigger] l[k]) by {
        assert(l[k] == d1[k]);
    }
    lemma_skip_digits_run(l, 0, n1);
    assert(skip_digits(l, 0) == n1);
    assert(skip_spaces(l, n1 + 1) == n1 + 1);
    assert(skip_spaces(l, n1) == n1 + 1);
    assert(skip_spaces(l, n1 + 7) == n1 + 7);
    assert(skip_spaces(l, n1 + 6) == n1 + 7);
    assert(skip_spaces(l, n1 + 5) == n1 + 7);
    assert(skip_spaces(l, n1 + 10) == n1 + 10);
    assert(skip_spaces(l, n1 + 9) == n1 + 10);
    assert(l[n1 + 12] == d2[0]);
    assert(skip_spaces(l, n1 + 12) == n1 + 12);
    assert(skip_spaces(l, n1 + 11) == n1 + 12);
    assert forall|k: int| n1 + 12 <= k < l.len() implies is_digit(#[trigger] l[k]) by {
        assert(l[k] == d2[k - n1 - 12]);
    }
    lemma_skip_digits_run(l, n1 + 12, l.len() as int);
    assert(skip_digits(l, n1 + 12) == l.len());
    assert(skip_ws(l, l.len() as int) == l.len());
    lemma_digits_val_decimal(l, 0, r.match_state as nat);
    lemma_digits_val_decimal(l, n1 + 12, r.state as nat);
    assert(dir_of(dir_letter(r.go)) == Some(r.go));
    assert(line_rule(l) is Some);
    assert(line_rule(l)->0.match_nearby =~= r.match_nearby);
}

/// The line scanner starts where it is pointed and stops at the end at the latest.
proof fn lemma_find_nl_bounds(t: Seq<char>, i: int)
    requires
        0 <= i <= t.len(),
    ensures
        i <= find_nl(t, i) <= t.len(),
        find_nl(t, i) < t.len() ==> t[find_nl(t, i)] == '\n',
    decreases t.len() - i,
{
    if i < t.len() && t[i] != '\n' {
        lemma_find_nl_bounds(t, i + 1);
    }
}

/// A stretch without line feeds, followed by one, is a single line.
proof fn lemma_find_nl_run(t: Seq<char>, i: int, m: int)
    requires
        0 <= i <= m < t.len(),
        t[m] == '\n',
        forall|k: int| i <= k < m ==> #[trigger] t[k] != '\n',
    ensures
        find_nl(t, i) == m,
    decreases m - i,
{
    if i < m {
        lemma_find_nl_run(t, i + 1, m);
    }
}

/// What follows a prefix is scanned as if the prefix were not there.
proof fn lemma_shift(p: Seq<char>, q: Seq<char>, j: int)
    requires
        0 <= j <= q.len(),
    ensures
        find_nl(p + q, p.len() + j) == p.len() + find_nl(q, j),
        line_at(p + q, p.len() + j) == line_at(q, j),
        rules_from(p + q, p.len() + j) == rules_from(q, j),
        errors_from(p + q, p.len() + j) == errors_from(q, j),
    decreases q.len() - j,
{
    let t = p + q;
    let i = p.len() + j;
    if j < q.len() && q[j] != '\n' {
        assert(t[i] == q[j]);
        lemma_shift(p, q, j + 1);
    } else if j < q.len() {
        assert(t[i] == q[j]);
    }
    lemma_find_nl_bounds(q, j);
    let e = find_nl(q, j);
    if j < e && e < q.len() {
        assert(t[p.len() + e - 1] == q[e - 1]);
        assert(t.subrange(i, p.len() + e - 1) =~= q.subrange(j, e - 1));
    }
    assert(t.subrange(i, p.len() + e) =~= q.subrange(j, e));
    if e < q.len() {
        lemma_shift(p, q, e + 1);
    }
}

/// Writing rules out and reading the text back gives the same rules, and no error.
pub proof fn lemma_text_round_trip(rs: Seq<Rule>)
    ensures
        rules_from(rules_text(rs), 0) == rs,
        errors_from(rules_text(rs), 0).len() == 0,
    decreases rs.len(),
{
    let t = rules_text(rs);
    if rs.len() == 0 {
        assert(line_at(t, 0) =~= Seq::<char>::empty());
        assert(rules_from(t, 0) =~= rs);
    } else {
        let r = rs[0];
        let rest = rs.drop_first();
        let lt = rule_text(r);
        let p = lt + seq!['\n'];
        let q = rules_text(rest);
        assert(t =~= p + q);
        lemma_rule_text_one_line(r);
        let n = lt.len() as int;
        assert forall|k: int| 0 <= k < n implies #[trigger] t[k] != '\n' by {
            assert(t[k] == lt[k]);
        }
        lemma_find_nl_run(t, 0, n);
        assert(t[n - 1] == lt[n - 1]);
        assert(t.subrange(0, n) =~= lt);
        assert(line_at(t, 0) == lt);
        lemma_rule_line_round_trip(r);
        lemma_text_round_trip(rest);
        lemma_shift(p, q, 0);
        assert(p.len() == n + 1);
        assert(rules_from(t, 0) =~= rs);
        assert(errors_from(t, 0) =~= Seq::<char>::empty());
    }
}


/// The four-letter code of a neighbourhood: for N, E, W, S in turn, the letter
/// where there is a wall and `x` where there is none.
pub open spec fn nearby_text(nb: Nearby) -> Seq<char> {
    seq![
        if nb.0@[0] { 'N' } else { 'x' },
        if nb.0@[1] { 'E' } else { 'x' },
        if nb.0@[2] { 'W' } else { 'x' },
        if nb.0@[3] { 'S' } else { 'x' },
    ]
}

/// Appends the letter of `d` when `wall` holds, `x` otherwise.
fn push_flag(out: &mut String, wall: bool, d: Dir)
    ensures
        final(out)@ == old(out)@.push(if wall { dir_letter(d) } else { 'x' }),
{
    if wall {
        push_dir(out, d);
    } else {
        push_cond(out, SpaceCondition::Clear, d);
    }
}

impl Nearby {
    /// The four-letter code of this neighbourhood, such as `NExx`.
    pub fn to_text(&self) -> (r: String)
        ensures
            r@ == nearby_text(*self),
    {
        let mut out = String::new();
        push_flag(&mut out, self.0[0], Dir::N);
        push_flag(&mut out, self.0[1], Dir::E);
        push_flag(&mut out, self.0[2], Dir::W);
        push_flag(&mut out, self.0[3], Dir::S);
        assert(out@ =~= nearby_text(*self));
        out
    }
}

/// How cell `i` is drawn: `@` for the agent, `#` for a wall, `-` for a visited
/// cell and a space for the rest.
pub open spec fn cell_char(s: Sim, i: int) -> char {
    if i == s.idx(s.bot) {
        '@'
    } else if s.walls[i] {
        '#'
    } else if s.visited[i] {
        '-'
    } else {
        ' '
    }
}

/// The drawing of the first `n` cells, each row ended by a line feed.
pub open spec fn grid_text(s: Sim, n: int) -> Seq<char>
    decreases n,
{
    if n <= 0 {
        Seq::empty()
    } else {
        grid_text(s, n - 1).push(cell_char(s, n - 1)) + if n % s.w == 0 {
            seq!['\n']
        } else {
            Seq::empty()
        }
    }
}

/// The drawing of a run: the map, then the agent's state id, its neighbourhood
/// code (`????` where a neighbour lies off the map) and the number of clear
/// cells left, then an empty line.
pub open spec fn render_text(s: Sim) -> Seq<char> {
    grid_text(s, s.w * s.h) + "State: "@ + decimal(s.bot_state as nat) + "  Nearby: "@ + (if s.senses_inside() {
        nearby_text(s.sensed())
    } else {
        "????"@
    }) + "  Remaining: "@ + decimal(s.unvisited() as nat) + "\n\n"@
}

impl MapState {
    /// The drawing of the run.
    pub fn render(&self) -> (r: String)
        requires
            self.wf(),
        ensures
            r@ == render_text(self@),
    {
        let ghost s = self@;
        let mut out = String::new();
        let total = self.walls.width() as usize * self.walls.height() as usize;
        let w = self.walls.width() as usize;
        let bot = self.walls.index(self.bot);
        proof {
            reveal_strlit("@");
            reveal_strlit("#");
            reveal_strlit("-");
            reveal_strlit(" ");
            reveal_strlit("\n");
        }
        let mut i: usize = 0;
        while i < total
            invariant
                self.wf(),
                s == self@,
                total == s.w * s.h,
                w == s.w,
                bot == s.idx(s.bot),
                i <= total,
                out@ == grid_text(s, i as int),
            decreases total - i,
        {
            let c: &str = if i == bot {
                "@"
            } else if self.walls.values_at(i) {
                "#"
            } else if self.visited.values_at(i) {
                "-"
            } else {
                " "
            };
            out.append(c);
            if (i + 1) % w == 0 {
                out.append("\n");
            }
            proof {
                reveal_strlit("@");
                reveal_strlit("#");
                reveal_strlit("-");
                reveal_strlit(" ");
                reveal_strlit("\n");
            }
            assert(out@ =~= grid_text(s, i as int + 1));
            i += 1;
        }
        proof {
            lemma_visited_bound(self);
        }
        out.append("State: ");
        push_decimal(&mut out, self.bot_state);
        out.append("  Nearby: ");
        match self.nearby_walls() {
            Some(nb) => {
                let code = nb.to_text();
                out.append(code.as_str());
            },
            None => {
                out.append("????");
            },
        }
        out.append("  Remaining: ");
        push_decimal(&mut out, self.unvisited() as u32);
        out.append("\n\n");
        assert(out@ =~= render_text(s));
        out
    }
}

impl Game {
    /// The drawing of the run.
    pub fn render(&self) -> (r: String)
        requires
            self.wf(),
        ensures
            r@ == render_text(self.sim()),
    {
        self.map_state().render()
    }
}

/// No more cells are visited than are clear, and the clear cells fit in a `u32`.
proof fn lemma_visited_bound(m: &MapState)
    requires
        m.wf(),
    ensures
        0 <= m@.unvisited() <= u32::MAX,
{
    crate::grid::lemma_count_total(m@.walls);
    crate::grid::lemma_count_total(m@.visited);
    crate::game::lemma_visited_within_clear(m@.visited, m@.walls);
}

} // verus!
