//! SVG path data: the tokenizer that turns a `d` attribute into commands,
//! and the replay of those commands through a [`Bounds`] accumulator.

use crate::bounds::{BoxModel, Bounds};
use crate::coord::{number_limit, number_value, parse_number, Coord};
use vstd::prelude::*;
use vstd::string::StrSliceExecFns;

verus! {

pub open spec fn is_letter(c: char) -> bool {
    ('a' <= c && c <= 'z') || ('A' <= c && c <= 'Z')
}

/// The twenty letters of the SVG path language.
pub open spec fn is_command_letter(c: char) -> bool {
    c == 'M' || c == 'm' || c == 'L' || c == 'l' || c == 'H' || c == 'h' || c == 'V' || c == 'v'
        || c == 'C' || c == 'c' || c == 'S' || c == 's' || c == 'Q' || c == 'q' || c == 'T' || c
        == 't' || c == 'A' || c == 'a' || c == 'Z' || c == 'z'
}

/// The white space that separates numeric tokens: the characters with the
/// Unicode `White_Space` property, as `char::is_whitespace` has them.
pub open spec fn is_separator(c: char) -> bool {
    ('\u{9}' <= c && c <= '\u{D}') || c == ' ' || c == '\u{85}' || c == '\u{A0}' || c == '\u{1680}'
        || ('\u{2000}' <= c && c <= '\u{200A}') || c == '\u{2028}' || c == '\u{2029}' || c
        == '\u{202F}' || c == '\u{205F}' || c == '\u{3000}'
}

/// What went wrong in a path, as a mathematical value.
pub ghost enum PathFault {
    InvalidCommand(char),
    InvalidArgument(Seq<char>, int),
    MalformedCommand(char, int),
}

/// Why a path was rejected.
#[derive(Debug, PartialEq, Eq)]
pub enum PathError {
    /// A letter that is not a path command.
    InvalidCommand { command: char },
    /// A token that is not a number, with the index of its first character.
    InvalidArgument { token: String, position: usize },
    /// A command that lacks the argument at `index`.
    MalformedCommand { command: char, index: usize },
}

impl View for PathError {
    type V = PathFault;

    open spec fn view(&self) -> PathFault {
        match self {
            PathError::InvalidCommand { command } => PathFault::InvalidCommand(*command),
            PathError::InvalidArgument { token, position } => PathFault::InvalidArgument(
                token@,
                *position as int,
            ),
            PathError::MalformedCommand { command, index } => PathFault::MalformedCommand(
                *command,
                *index as int,
            ),
        }
    }
}

/// One path command: its letter and all the numbers that follow it.
#[derive(Debug)]
pub struct Command {
    pub command: char,
    pub args: Vec<Coord>,
}

impl View for Command {
    type V = (char, Seq<Coord>);

    open spec fn view(&self) -> (char, Seq<Coord>) {
        (self.command, self.args@)
    }
}

impl Clone for Command {
    fn clone(&self) -> (r: Command)
        ensures
            r@ == self@,
    {
        Command { command: self.command, args: self.args.clone() }
    }
}

/// `acc` put in front of a successful result; an error is kept.
pub open spec fn prepend<T>(acc: Seq<T>, r: Result<Seq<T>, PathFault>) -> Result<Seq<T>, PathFault> {
    match r {
        Ok(rest) => Ok(acc + rest),
        Err(f) => Err(f),
    }
}

/// The end of the run of characters from `i` that holds no letter.
pub open spec fn run_end(s: Seq<char>, i: int) -> int
    decreases s.len() - i,
{
    if i < 0 || i >= s.len() || is_letter(s[i]) {
        i
    } else {
        run_end(s, i + 1)
    }
}

/// The end of the token that starts at `i`, at a separator or at `e`.
pub open spec fn token_end(s: Seq<char>, i: int, e: int) -> int
    decreases e - i,
{
    if i < 0 || i >= e || i >= s.len() || is_separator(s[i]) {
        i
    } else {
        token_end(s, i + 1, e)
    }
}

proof fn lemma_run_end(s: Seq<char>, i: int)
    requires
        0 <= i <= s.len(),
    ensures
        i <= run_end(s, i) <= s.len(),
        forall|j: int| i <= j < run_end(s, i) ==> !is_letter(#[trigger] s[j]),
        run_end(s, i) < s.len() ==> is_letter(s[run_end(s, i)]),
    decreases s.len() - i,
{
    if i < s.len() && !is_letter(s[i]) {
        lemma_run_end(s, i + 1);
    }
}

proof fn lemma_token_end(s: Seq<char>, i: int, e: int)
    requires
        0 <= i <= e <= s.len(),
    ensures
        i <= token_end(s, i, e) <= e,
    decreases e - i,
{
    if i < e && !is_separator(s[i]) {
        lemma_token_end(s, i + 1, e);
    }
}

/// The numbers of `s[i..e]`, tokens split at separators.
pub open spec fn parse_args(s: Seq<char>, i: int, e: int) -> Result<Seq<Coord>, PathFault>
    decreases e - i,
    via parse_args_decreases
{
    if i < 0 || i >= e || e > s.len() {
        Ok(Seq::empty())
    } else if is_separator(s[i]) {
        parse_args(s, i + 1, e)
    } else {
        let j = token_end(s, i, e);
        match number_value(s.subrange(i, j)) {
            None => Err(PathFault::InvalidArgument(s.subrange(i, j), i)),
            Some(v) => prepend(seq![v as Coord], parse_args(s, j, e)),
        }
    }
}

#[via_fn]
proof fn parse_args_decreases(s: Seq<char>, i: int, e: int) {
    if 0 <= i < e <= s.len() && !is_separator(s[i]) {
        lemma_token_end(s, i, e);
    }
}

/// The commands of `s` from index `i`: each letter with the numbers of the
/// run that follows it; characters before the first letter are skipped.
pub open spec fn parse_from(s: Seq<char>, i: int) -> Result<Seq<(char, Seq<Coord>)>, PathFault>
    decreases s.len() - i,
    via parse_from_decreases
{
    if i < 0 || i >= s.len() {
        Ok(Seq::empty())
    } else if !is_letter(s[i]) {
        parse_from(s, i + 1)
    } else if !is_command_letter(s[i]) {
        Err(PathFault::InvalidCommand(s[i]))
    } else {
        let e = run_end(s, i + 1);
        match parse_args(s, i + 1, e) {
            Err(f) => Err(f),
            Ok(args) => prepend(seq![(s[i], args)], parse_from(s, e)),
        }
    }
}

#[via_fn]
proof fn parse_from_decreases(s: Seq<char>, i: int) {
    if 0 <= i < s.len() {
        lemma_run_end(s, i + 1);
    }
}

/// The commands of a whole path-data string.
pub open spec fn parse_path(s: Seq<char>) -> Result<Seq<(char, Seq<Coord>)>, PathFault> {
    parse_from(s, 0)
}

fn is_letter_char(c: char) -> (r: bool)
    ensures
        r == is_letter(c),
{
    ('a' <= c && c <= 'z') || ('A' <= c && c <= 'Z')
}

fn is_command_char(c: char) -> (r: bool)
    ensures
        r == is_command_letter(c),
{
    c == 'M' || c == 'm' || c == 'L' || c == 'l' || c == 'H' || c == 'h' || c == 'V' || c == 'v'
        || c == 'C' || c == 'c' || c == 'S' || c == 's' || c == 'Q' || c == 'q' || c == 'T' || c
        == 't' || c == 'A' || c == 'a' || c == 'Z' || c == 'z'
}

fn is_separator_char(c: char) -> (r: bool)
    ensures
        r == is_separator(c),
{
    ('\u{9}' <= c && c <= '\u{D}') || c == ' ' || c == '\u{85}' || c == '\u{A0}' || c == '\u{1680}'
        || ('\u{2000}' <= c && c <= '\u{200A}') || c == '\u{2028}' || c == '\u{2029}' || c
        == '\u{202F}' || c == '\u{205F}' || c == '\u{3000}'
}

/// The characters of `s`, one by one.
pub(crate) fn chars_of(s: &str) -> (r: Vec<char>)
    ensures
        r@ == s@,
{
    let mut r: Vec<char> = Vec::new();
    for c in it: s.chars()
        invariant
            r@ == it.seq().take(it.index() as int),
    {
        r.push(c);
    }
    r
}

/// The numbers of `s[start..end]`; `text` holds the same characters as `s`.
fn tokenize_args(text: &str, s: &Vec<char>, start: usize, end: usize) -> (r: Result<
    Vec<Coord>,
    PathError,
>)
    requires
        start <= end <= s.len(),
        s@ == text@,
    ensures
        match parse_args(s@, start as int, end as int) {
            Ok(a) => r matches Ok(v) && v@ == a,
            Err(f) => r matches Err(x) && x@ == f,
        },
        r matches Ok(v) ==> forall|k: int| 0 <= k < v.len() ==> -number_limit() < #[trigger] v@[k]
            < number_limit(),
{
    let mut args: Vec<Coord> = Vec::new();
    let mut i: usize = start;
    while i < end
        invariant
            start <= i <= end <= s.len(),
            s@ == text@,
            parse_args(s@, start as int, end as int) == prepend(
                args@,
                parse_args(s@, i as int, end as int),
            ),
            forall|k: int| 0 <= k < args.len() ==> -number_limit() < #[trigger] args@[k]
                < number_limit(),
        decreases end - i,
    {
        if is_separator_char(s[i]) {
            i = i + 1;
        } else {
            let mut j: usize = i;
            while j < end && !is_separator_char(s[j])
                invariant
                    i <= j <= end <= s.len(),
                    token_end(s@, i as int, end as int) == token_end(s@, j as int, end as int),
                decreases end - j,
            {
                j = j + 1;
            }
            assert(token_end(s@, j as int, end as int) == j);
            assert(s@.len() == text@.len());
            match parse_number(s, i, j) {
                None => {
                    let token = text.substring_char(i, j).to_owned();
                    return Err(PathError::InvalidArgument { token, position: i });
                },
                Some(v) => {
                    let ghost old_args = args@;
                    args.push(v);
                    assert(args@ == old_args + seq![v]);
                    assert(prepend(args@, parse_args(s@, j as int, end as int)) == prepend(
                        old_args,
                        prepend(seq![v], parse_args(s@, j as int, end as int)),
                    )) by {
                        match parse_args(s@, j as int, end as int) {
                            Ok(rest) => {
                                assert(old_args + (seq![v] + rest) =~= args@ + rest);
                            },
                            Err(_) => {},
                        }
                    }
                },
            }
            i = j;
        }
    }
    assert(args@ + Seq::<Coord>::empty() =~= args@);
    Ok(args)
}

/// The commands of a path-data string.
fn get_commands_from_path_string(path: &str) -> (r: Result<Vec<Command>, PathError>)
    ensures
        match parse_path(path@) {
            Ok(cs) => r matches Ok(v) && v@.map_values(|c: Command| c@) == cs,
            Err(f) => r matches Err(x) && x@ == f,
        },
        r matches Ok(v) ==> forall|k: int, m: int|
            0 <= k < v.len() && 0 <= m < v@[k].args.len() ==> -number_limit() < #[trigger] v@[k].args@[m]
                < number_limit(),
{
    let s = chars_of(path);
    let mut commands: Vec<Command> = Vec::new();
    let mut i: usize = 0;
    while i < s.len()
        invariant
            i <= s.len(),
            s@ == path@,
            parse_path(s@) == prepend(commands@.map_values(|c: Command| c@), parse_from(s@, i as int)),
            forall|k: int, m: int|
                0 <= k < commands.len() && 0 <= m < commands@[k].args.len() ==> -number_limit()
                    < #[trigger] commands@[k].args@[m] < number_limit(),
        decreases s.len() - i,
    {
        let c = s[i];
        if !is_letter_char(c) {
            i = i + 1;
        } else if !is_command_char(c) {
            return Err(PathError::InvalidCommand { command: c });
        } else {
            let mut e: usize = i + 1;
            proof {
                lemma_run_end(s@, i + 1);
            }
            while e < s.len() && !is_letter_char(s[e])
                invariant
                    i + 1 <= e <= s.len(),
                    run_end(s@, i + 1) == run_end(s@, e as int),
                decreases s.len() - e,
            {
                e = e + 1;
            }
            let args = match tokenize_args(path, &s, i + 1, e) {
                Ok(a) => a,
                Err(x) => { return Err(x); },
            };
            let ghost old_cs = commands@.map_values(|c: Command| c@);
            let cmd = Command { command: c, args };
            assert(cmd@ == (c, args@));
            commands.push(cmd);
            assert(commands@.map_values(|c: Command| c@) =~= old_cs + seq![(c, args@)]);
            assert(prepend(commands@.map_values(|c: Command| c@), parse_from(s@, e as int)) == prepend(
                old_cs,
                prepend(seq![(c, args@)], parse_from(s@, e as int)),
            )) by {
                match parse_from(s@, e as int) {
                    Ok(rest) => {
                        assert(old_cs + (seq![(c, args@)] + rest) =~= old_cs + seq![(c, args@)] + rest);
                    },
                    Err(_) => {},
                }
            }
            i = e;
        }
    }
    assert(commands@.map_values(|c: Command| c@) + Seq::<(char, Seq<Coord>)>::empty() =~= commands@.map_values(|c: Command| c@));
    Ok(commands)
}

/// The index of the first argument of the point that command `c` draws to.
pub open spec fn point_index(c: char) -> int {
    if c == 'C' || c == 'c' {
        4
    } else if c == 'S' || c == 's' || c == 'Q' || c == 'q' {
        2
    } else if c == 'A' || c == 'a' {
        5
    } else {
        0
    }
}

pub open spec fn is_horizontal(c: char) -> bool {
    c == 'H' || c == 'h'
}

pub open spec fn is_vertical(c: char) -> bool {
    c == 'V' || c == 'v'
}

pub open spec fn is_move(c: char) -> bool {
    c == 'M' || c == 'm'
}

pub open spec fn is_close(c: char) -> bool {
    c == 'Z' || c == 'z'
}

/// Lower-case letters are relative to the pen; a move is always absolute.
pub open spec fn is_relative(c: char) -> bool {
    'a' <= c && c <= 'z' && c != 'm'
}

/// The point that command `(c, args)` draws to from the pen of `b`: `None`
/// for a close. Only the first group of arguments counts.
pub open spec fn target(b: BoxModel, c: char, args: Seq<Coord>) -> Result<
    Option<(int, int)>,
    PathFault,
> {
    if is_close(c) {
        Ok(None)
    } else if !is_command_letter(c) {
        Err(PathFault::InvalidCommand(c))
    } else if is_horizontal(c) || is_vertical(c) {
        if args.len() == 0 {
            Err(PathFault::MalformedCommand(c, 0))
        } else {
            let a = args[0] as int;
            let base = if is_relative(c) { b.last } else { (0, 0) };
            if is_horizontal(c) {
                Ok(Some((base.0 + a, b.last.1)))
            } else {
                Ok(Some((b.last.0, base.1 + a)))
            }
        }
    } else {
        let p = point_index(c);
        if args.len() <= p {
            Err(PathFault::MalformedCommand(c, p))
        } else if args.len() <= p + 1 {
            Err(PathFault::MalformedCommand(c, p + 1))
        } else if is_relative(c) {
            Ok(Some((b.last.0 + args[p] as int, b.last.1 + args[p + 1] as int)))
        } else {
            Ok(Some((args[p] as int, args[p + 1] as int)))
        }
    }
}

/// One command replayed on `b`. The point of the path's first command
/// becomes both corners of the box.
pub open spec fn step(b: BoxModel, first: bool, c: char, args: Seq<Coord>) -> Result<
    BoxModel,
    PathFault,
> {
    match target(b, c, args) {
        Err(f) => Err(f),
        Ok(None) => Ok(b.closed()),
        Ok(Some(pt)) => if is_move(c) {
            Ok(b.moved(pt.0, pt.1, first))
        } else if first {
            Ok(BoxModel::at(pt.0, pt.1))
        } else {
            Ok(b.extended(pt.0, pt.1))
        },
    }
}

/// The box after replaying `cmds` in order from the degenerate box.
pub open spec fn replay(cmds: Seq<(char, Seq<Coord>)>) -> Result<BoxModel, PathFault>
    decreases cmds.len(),
{
    if cmds.len() == 0 {
        Ok(BoxModel::zero())
    } else {
        match replay(cmds.drop_last()) {
            Err(f) => Err(f),
            Ok(b) => step(b, cmds.len() == 1, cmds.last().0, cmds.last().1),
        }
    }
}

/// Once a prefix of the commands fails, the whole replay fails the same way.
proof fn lemma_replay_error_stays(cmds: Seq<(char, Seq<Coord>)>, k: int)
    requires
        0 <= k <= cmds.len(),
        replay(cmds.take(k)) is Err,
    ensures
        replay(cmds) == replay(cmds.take(k)),
    decreases cmds.len() - k,
{
    if k < cmds.len() {
        assert(cmds.take(k + 1).drop_last() =~= cmds.take(k));
        lemma_replay_error_stays(cmds, k + 1);
    } else {
        assert(cmds.take(k) =~= cmds);
    }
}

/// Bound on every coordinate of a replayed path: a path has fewer than
/// 2^64 commands, and each moves the pen by less than [`number_limit`].
pub open spec fn coord_bound() -> int {
    0x1_0000_0000_0000_0000 * number_limit()
}

/// The commands of an SVG path.
#[derive(Debug)]
pub struct Path {
    commands: Vec<Command>,
}

impl View for Path {
    type V = Seq<(char, Seq<Coord>)>;

    closed spec fn view(&self) -> Seq<(char, Seq<Coord>)> {
        self.commands@.map_values(|c: Command| c@)
    }
}

impl Path {
    /// Every argument is a parsed number.
    #[verifier::type_invariant]
    spec fn arguments_in_range(self) -> bool {
        forall|k: int, m: int|
            0 <= k < self.commands.len() && 0 <= m < self.commands@[k].args.len()
                ==> -number_limit() < #[trigger] self.commands@[k].args@[m] < number_limit()
    }

    /// Parses a path-data string.
    pub fn new(d_attribute: String) -> (r: Result<Path, PathError>)
        ensures
            match parse_path(d_attribute@) {
                Ok(cs) => r matches Ok(p) && p@ == cs,
                Err(f) => r matches Err(x) && x@ == f,
            },
    {
        Path::parse(d_attribute.as_str())
    }

    /// Parses path data held in a string slice.
    pub fn parse(d: &str) -> (r: Result<Path, PathError>)
        ensures
            match parse_path(d@) {
                Ok(cs) => r matches Ok(p) && p@ == cs,
                Err(f) => r matches Err(x) && x@ == f,
            },
    {
        let commands = get_commands_from_path_string(d)?;
        Ok(Path { commands })
    }

    /// The commands, in order.
    pub fn commands(&self) -> (r: &Vec<Command>)
        ensures
            r@.map_values(|c: Command| c@) == self@,
    {
        &self.commands
    }

    /// The bounding box of the path, or the first command that cannot be
    /// replayed.
    pub fn bounds(&self) -> (r: Result<Bounds, PathError>)
        ensures
            match replay(self@) {
                Ok(b) => r matches Ok(x) && x@ == b,
                Err(f) => r matches Err(x) && x@ == f,
            },
            r matches Ok(x) ==> x@.within(coord_bound()),
    {
        proof {
            use_type_invariant(self);
        }
        let mut bounds = Bounds::new();
        let mut i: usize = 0;
        assert(self@.take(0) =~= Seq::<(char, Seq<Coord>)>::empty());
        while i < self.commands.len()
            invariant
                i <= self.commands.len(),
                replay(self@.take(i as int)) == Ok::<BoxModel, PathFault>(bounds@),
                bounds@.within(i * number_limit()),
                self@ == self.commands@.map_values(|c: Command| c@),
                forall|k: int, m: int|
                    0 <= k < self.commands.len() && 0 <= m < self.commands@[k].args.len()
                        ==> -number_limit() < #[trigger] self.commands@[k].args@[m] < number_limit(),
            decreases self.commands.len() - i,
        {
            let command = &self.commands[i];
            assert(self@.take(i + 1).drop_last() =~= self@.take(i as int));
            assert(self@.take(i + 1).last() == command@);
            match replay_command(&bounds, i == 0, command, i) {
                Ok(b) => { bounds = b; },
                Err(x) => {
                    proof {
                        lemma_replay_error_stays(self@, i + 1);
                    }
                    return Err(x);
                },
            }
            i = i + 1;
        }
        assert(self@.take(i as int) =~= self@);
        proof {
            assert(i * number_limit() <= coord_bound()) by (nonlinear_arith)
                requires
                    i <= 0xffff_ffff_ffff_ffff,
                    number_limit() == 1_000_000_000_000_000_000,
            ;
        }
        Ok(bounds)
    }
}

/// One command replayed on `bounds`, the `n`-th of its path.
fn replay_command(bounds: &Bounds, is_first: bool, command: &Command, n: usize) -> (r: Result<
    Bounds,
    PathError,
>)
    requires
        bounds@.within(n * number_limit()),
        forall|m: int| 0 <= m < command.args.len() ==> -number_limit() < #[trigger] command.args@[m] < number_limit(),
    ensures
        match step(bounds@, is_first, command.command, command.args@) {
            Ok(b) => r matches Ok(x) && x@ == b,
            Err(f) => r matches Err(x) && x@ == f,
        },
        r matches Ok(x) ==> x@.within((n + 1) * number_limit()),
{
    assert(n * number_limit() + number_limit() == (n + 1) * number_limit()) by (nonlinear_arith);
    assert((n + 1) * number_limit() <= coord_bound()) by (nonlinear_arith)
        requires
            n < 0x1_0000_0000_0000_0000,
            number_limit() > 0,
    ;
    let c = command.command;
    let args = &command.args;
    let (x, y) = if c == 'Z' || c == 'z' {
        return Ok(bounds.close());
    } else if !is_command_char(c) {
        return Err(PathError::InvalidCommand { command: c });
    } else if c == 'H' || c == 'h' || c == 'V' || c == 'v' {
        if args.len() == 0 {
            return Err(PathError::MalformedCommand { command: c, index: 0 });
        }
        let a = args[0];
        let (px, py) = bounds.last_point;
        if c == 'H' {
            (a, py)
        } else if c == 'h' {
            (px + a, py)
        } else if c == 'V' {
            (px, a)
        } else {
            (px, py + a)
        }
    } else {
        let p: usize = if c == 'C' || c == 'c' {
            4
        } else if c == 'S' || c == 's' || c == 'Q' || c == 'q' {
            2
        } else if c == 'A' || c == 'a' {
            5
        } else {
            0
        };
        if args.len() <= p {
            return Err(PathError::MalformedCommand { command: c, index: p });
        }
        if args.len() <= p + 1 {
            return Err(PathError::MalformedCommand { command: c, index: p + 1 });
        }
        let (px, py) = bounds.last_point;
        if 'a' <= c && c <= 'z' && c != 'm' {
            (px + args[p], py + args[p + 1])
        } else {
            (args[p], args[p + 1])
        }
    };
    if c == 'M' || c == 'm' {
        Ok(bounds.move_last_point(x, y, is_first))
    } else if is_first {
        Ok(bounds.move_last_point(x, y, true))
    } else {
        Ok(bounds.extends(x, y))
    }
}

/// The corners of a replayed box are ordered, `x1 <= x2` and `y1 <= y2`,
/// for every path, and the pen lies inside the box.
pub proof fn lemma_corners_ordered(cmds: Seq<(char, Seq<Coord>)>)
    ensures
        replay(cmds) matches Ok(b) ==> b.is_ordered() && b.x1 <= b.last.0 <= b.x2 && b.y1
            <= b.last.1 <= b.y2,
    decreases cmds.len(),
{
    if cmds.len() > 0 {
        lemma_corners_ordered(cmds.drop_last());
    }
}

/// Replaying the same commands gives the same result: the bounds of a path
/// depend on its commands alone.
pub proof fn lemma_replay_deterministic(p: &Path, q: &Path)
    requires
        p@ == q@,
    ensures
        replay(p@) == replay(q@),
{
}

/// A letter that is not a path command makes the whole path fail: it is
/// never skipped. When the text before it parses, the failure is an
/// invalid command that names the letter.
pub proof fn lemma_unknown_command_rejected(s: Seq<char>, i: int)
    requires
        0 <= i < s.len(),
        is_letter(s[i]),
        !is_command_letter(s[i]),
    ensures
        parse_path(s) is Err,
        parse_path(s.take(i)) is Ok ==> parse_path(s) == Err::<Seq<(char, Seq<Coord>)>, PathFault>(
            PathFault::InvalidCommand(s[i]),
        ),
        args_parse_before(s, i) ==> parse_path(s) matches Err(PathFault::InvalidCommand(_)),
{
    lemma_parse_fails_before(s, i, 0);
    if args_parse_before(s, i) {
        lemma_invalid_command_before(s, i, 0);
    }
    if parse_path(s.take(i)) is Ok {
        lemma_parse_fails_at(s, i, 0);
    }
}

/// The numbers after every letter of `s[..i]` parse.
pub open spec fn args_parse_before(s: Seq<char>, i: int) -> bool {
    forall|j: int| 0 <= j < i && #[trigger] is_letter(s[j]) ==> parse_args(s, j + 1, run_end(s, j + 1)) is Ok
}

proof fn lemma_invalid_command_before(s: Seq<char>, i: int, j: int)
    requires
        0 <= j <= i < s.len(),
        is_letter(s[i]),
        !is_command_letter(s[i]),
        args_parse_before(s, i),
    ensures
        parse_from(s, j) matches Err(PathFault::InvalidCommand(_)),
    decreases i - j,
{
    if j < i {
        if !is_letter(s[j]) {
            lemma_invalid_command_before(s, i, j + 1);
        } else if is_command_letter(s[j]) {
            lemma_run_end(s, j + 1);
            let e = run_end(s, j + 1);
            assert(e <= i) by {
                if e > i {
                    assert(!is_letter(s[i]));
                }
            }
            lemma_invalid_command_before(s, i, e);
        }
    }
}

proof fn lemma_run_end_prefix(s: Seq<char>, n: int, i: int)
    requires
        0 <= i <= n < s.len(),
        is_letter(s[n]),
    ensures
        run_end(s, i) == run_end(s.take(n), i),
        run_end(s, i) <= n,
    decreases n - i,
{
    if i < n && !is_letter(s[i]) {
        lemma_run_end_prefix(s, n, i + 1);
    }
}

proof fn lemma_token_end_prefix(s: Seq<char>, n: int, i: int, e: int)
    requires
        0 <= i <= e <= n <= s.len(),
    ensures
        token_end(s, i, e) == token_end(s.take(n), i, e),
    decreases e - i,
{
    if i < e && !is_separator(s[i]) {
        lemma_token_end_prefix(s, n, i + 1, e);
    }
}

proof fn lemma_parse_args_prefix(s: Seq<char>, n: int, i: int, e: int)
    requires
        0 <= i <= e <= n <= s.len(),
    ensures
        parse_args(s, i, e) == parse_args(s.take(n), i, e),
    decreases e - i,
{
    let t = s.take(n);
    if i < e {
        if is_separator(s[i]) {
            lemma_parse_args_prefix(s, n, i + 1, e);
        } else {
            lemma_token_end_prefix(s, n, i, e);
            lemma_token_end(s, i, e);
            let j = token_end(s, i, e);
            assert(s.subrange(i, j) =~= t.subrange(i, j));
            if j > i {
                lemma_parse_args_prefix(s, n, j, e);
            }
        }
    }
}

proof fn lemma_parse_fails_at(s: Seq<char>, i: int, j: int)
    requires
        0 <= j <= i < s.len(),
        is_letter(s[i]),
        !is_command_letter(s[i]),
        parse_from(s.take(i), j) is Ok,
    ensures
        parse_from(s, j) == Err::<Seq<(char, Seq<Coord>)>, PathFault>(PathFault::InvalidCommand(s[i])),
    decreases i - j,
{
    let t = s.take(i);
    if j < i {
        assert(t[j] == s[j]);
        if !is_letter(s[j]) {
            lemma_parse_fails_at(s, i, j + 1);
        } else {
            lemma_run_end_prefix(s, i, j + 1);
            lemma_run_end(s, j + 1);
            let e = run_end(s, j + 1);
            lemma_parse_args_prefix(s, i, j + 1, e);
            lemma_parse_fails_at(s, i, e);
        }
    }
}

proof fn lemma_parse_fails_before(s: Seq<char>, i: int, j: int)
    requires
        0 <= j <= i < s.len(),
        is_letter(s[i]),
        !is_command_letter(s[i]),
    ensures
        parse_from(s, j) is Err,
    decreases i - j,
{
    if j < i {
        if !is_letter(s[j]) {
            lemma_parse_fails_before(s, i, j + 1);
        } else if is_command_letter(s[j]) {
            lemma_run_end(s, j + 1);
            let e = run_end(s, j + 1);
            assert(e <= i) by {
                if e > i {
                    assert(!is_letter(s[i]));
                }
            }
            if parse_args(s, j + 1, e) is Ok {
                lemma_parse_fails_before(s, i, e);
            }
        }
    }
}

/// The pen after replaying `cmds`, when the replay succeeds.
pub open spec fn pen_after(cmds: Seq<(char, Seq<Coord>)>) -> (int, int) {
    match replay(cmds) {
        Ok(b) => b.last,
        Err(_) => (0, 0),
    }
}

/// A relative line-to `l dx dy` and the absolute line-to `L x y` to the
/// same point, `(x, y)` being the pen plus `(dx, dy)`, give the same box:
/// replacing the one by the other leaves the replay unchanged.
pub proof fn lemma_relative_line_as_absolute(cmds: Seq<(char, Seq<Coord>)>, k: int, x: Coord, y: Coord)
    requires
        0 <= k < cmds.len(),
        cmds[k].0 == 'l',
        cmds[k].1.len() >= 2,
        replay(cmds.take(k)) is Ok,
        x as int == pen_after(cmds.take(k)).0 + cmds[k].1[0] as int,
        y as int == pen_after(cmds.take(k)).1 + cmds[k].1[1] as int,
    ensures
        replay(cmds.update(k, ('L', seq![x, y]))) == replay(cmds),
{
    let c2 = cmds.update(k, ('L', seq![x, y]));
    lemma_replay_same_prefix(cmds, c2, k, cmds.len() as int);
    assert(cmds.take(cmds.len() as int) =~= cmds);
    assert(c2.take(c2.len() as int) =~= c2);
}

proof fn lemma_replay_same_prefix(
    cmds: Seq<(char, Seq<Coord>)>,
    c2: Seq<(char, Seq<Coord>)>,
    k: int,
    j: int,
)
    requires
        0 <= k < cmds.len(),
        0 <= j <= cmds.len(),
        cmds[k].0 == 'l',
        cmds[k].1.len() >= 2,
        replay(cmds.take(k)) is Ok,
        c2.len() == cmds.len(),
        c2[k].0 == 'L',
        c2[k].1.len() == 2,
        c2[k].1[0] as int == pen_after(cmds.take(k)).0 + cmds[k].1[0] as int,
        c2[k].1[1] as int == pen_after(cmds.take(k)).1 + cmds[k].1[1] as int,
        forall|m: int| 0 <= m < cmds.len() && m != k ==> c2[m] == cmds[m],
    ensures
        replay(c2.take(j)) == replay(cmds.take(j)),
    decreases j,
{
    if j <= k {
        assert(c2.take(j) =~= cmds.take(j));
    } else {
        lemma_replay_same_prefix(cmds, c2, k, j - 1);
        assert(c2.take(j).drop_last() =~= c2.take(j - 1));
        assert(cmds.take(j).drop_last() =~= cmds.take(j - 1));
        assert(c2.take(j).last() == c2[j - 1]);
        assert(cmds.take(j).last() == cmds[j - 1]);
    }
}

} // verus!
