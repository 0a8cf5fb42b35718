//! Line-by-line decoding of program text into the command sequence.
//!
//! The text is split into lines, each non-empty line into words separated
//! by single spaces.  The first word must carry the motion/mode prefix
//! `G` and a numeric code; unrecognized codes drop the whole line.  Codes
//! 0 and 1 emit axis and tag commands word by word, codes 2 and 3 expand
//! an arc, codes 20 and 21 emit the unit markers.  Any word that cannot
//! be decoded aborts the parse with no partial result.

use crate::arc::{arc_inter, spec_arc, Direction, COORD_LIMIT};
use crate::num::{lemma_find_is, parse_coord, parse_int, spec_find, spec_parse_coord, spec_parse_int};
use crate::Command;
use vstd::prelude::*;

verus! {

/// Why a program text was rejected.
#[derive(Clone, Copy, Debug, PartialEq, Eq, Structural)]
pub enum ParseError {
    /// A word was empty where a selector letter was required.
    EmptyWord,
    /// A numeric token could not be decoded, or a coordinate lies outside
    /// the supported workspace range.
    BadNumber,
}

/// Split at every separator; empty segments are kept.
pub open spec fn spec_split(s: Seq<u8>, sep: u8) -> Seq<Seq<u8>>
    decreases s.len(),
{
    let p = spec_find(s, sep);
    if 0 <= p < s.len() {
        seq![s.subrange(0, p)] + spec_split(s.subrange(p + 1, s.len() as int), sep)
    } else {
        seq![s]
    }
}

/// A trailing carriage return is not part of the line.
pub open spec fn spec_strip_cr(l: Seq<u8>) -> Seq<u8> {
    if l.len() > 0 && l[l.len() - 1] == 13 {
        l.drop_last()
    } else {
        l
    }
}

/// The non-empty lines, each without its trailing carriage return.
pub open spec fn spec_clean_lines(ls: Seq<Seq<u8>>, i: int) -> Seq<Seq<u8>>
    decreases ls.len() - i,
{
    if i < 0 || i >= ls.len() {
        Seq::empty()
    } else {
        let l = spec_strip_cr(ls[i]);
        if l.len() == 0 {
            spec_clean_lines(ls, i + 1)
        } else {
            seq![l] + spec_clean_lines(ls, i + 1)
        }
    }
}

/// Walks the words of a linear-move line from index `j`, emitting axis
/// updates and verbatim integer tags, and threading the position.
pub open spec fn spec_linear_words(
    words: Seq<Seq<u8>>,
    j: int,
    xp: int,
    yp: int,
    acc: Seq<Command>,
) -> Result<(Seq<Command>, int, int), ParseError>
    decreases words.len() - j,
{
    if j < 0 || j >= words.len() {
        Ok((acc, xp, yp))
    } else {
        let w = words[j];
        if w.len() == 0 {
            Err(ParseError::EmptyWord)
        } else {
            let rest = w.subrange(1, w.len() as int);
            if w[0] == 88 {
                match spec_parse_coord(rest) {
                    Some(v) => if -COORD_LIMIT <= v <= COORD_LIMIT {
                        spec_linear_words(words, j + 1, v as int, yp, acc.push(Command::X(v)))
                    } else {
                        Err(ParseError::BadNumber)
                    },
                    None => Err(ParseError::BadNumber),
                }
            } else if w[0] == 89 {
                match spec_parse_coord(rest) {
                    Some(v) => if -COORD_LIMIT <= v <= COORD_LIMIT {
                        spec_linear_words(words, j + 1, xp, v as int, acc.push(Command::Y(v)))
                    } else {
                        Err(ParseError::BadNumber)
                    },
                    None => Err(ParseError::BadNumber),
                }
            } else if w[0] == 78 {
                match spec_parse_int(rest) {
                    Some(v) => spec_linear_words(words, j + 1, xp, yp, acc.push(Command::N(v))),
                    None => Err(ParseError::BadNumber),
                }
            } else if w[0] == 77 {
                match spec_parse_int(rest) {
                    Some(v) => spec_linear_words(words, j + 1, xp, yp, acc.push(Command::M(v))),
                    None => Err(ParseError::BadNumber),
                }
            } else if w[0] == 74 {
                match spec_parse_int(rest) {
                    Some(v) => spec_linear_words(words, j + 1, xp, yp, acc.push(Command::J(v))),
                    None => Err(ParseError::BadNumber),
                }
            } else if w[0] == 75 {
                match spec_parse_int(rest) {
                    Some(v) => spec_linear_words(words, j + 1, xp, yp, acc.push(Command::K(v))),
                    None => Err(ParseError::BadNumber),
                }
            } else {
                spec_linear_words(words, j + 1, xp, yp, acc)
            }
        }
    }
}

/// Scans the words of an arc line from index `j` for the end point and
/// center offset fields; missing fields keep their zero defaults.
pub open spec fn spec_arc_words(
    words: Seq<Seq<u8>>,
    j: int,
    xv: int,
    yv: int,
    iv: int,
    jv: int,
) -> Result<(int, int, int, int), ParseError>
    decreases words.len() - j,
{
    if j < 0 || j >= words.len() {
        Ok((xv, yv, iv, jv))
    } else {
        let w = words[j];
        if w.len() == 0 {
            Err(ParseError::EmptyWord)
        } else {
            let rest = w.subrange(1, w.len() as int);
            if w[0] == 88 {
                match spec_parse_coord(rest) {
                    Some(v) => if -COORD_LIMIT <= v <= COORD_LIMIT {
                        spec_arc_words(words, j + 1, v as int, yv, iv, jv)
                    } else {
                        Err(ParseError::BadNumber)
                    },
                    None => Err(ParseError::BadNumber),
                }
            } else if w[0] == 89 {
                match spec_parse_coord(rest) {
                    Some(v) => if -COORD_LIMIT <= v <= COORD_LIMIT {
                        spec_arc_words(words, j + 1, xv, v as int, iv, jv)
                    } else {
                        Err(ParseError::BadNumber)
                    },
                    None => Err(ParseError::BadNumber),
                }
            } else if w[0] == 73 {
                match spec_parse_coord(rest) {
                    Some(v) => if -COORD_LIMIT <= v <= COORD_LIMIT {
                        spec_arc_words(words, j + 1, xv, yv, v as int, jv)
                    } else {
                        Err(ParseError::BadNumber)
                    },
                    None => Err(ParseError::BadNumber),
                }
            } else if w[0] == 74 {
                match spec_parse_coord(rest) {
                    Some(v) => if -COORD_LIMIT <= v <= COORD_LIMIT {
                        spec_arc_words(words, j + 1, xv, yv, iv, v as int)
                    } else {
                        Err(ParseError::BadNumber)
                    },
                    None => Err(ParseError::BadNumber),
                }
            } else {
                spec_arc_words(words, j + 1, xv, yv, iv, jv)
            }
        }
    }
}

/// What one cleaned line contributes: its commands and the position after it.
pub open spec fn spec_line_eval(line: Seq<u8>, xp: int, yp: int) -> Result<
    (Seq<Command>, int, int),
    ParseError,
> {
    let words = spec_split(line, 32);
    let w0 = words[0];
    if w0.len() == 0 {
        Err(ParseError::EmptyWord)
    } else if w0[0] != 71 {
        Ok((Seq::empty(), xp, yp))
    } else {
        match spec_parse_int(w0.subrange(1, w0.len() as int)) {
            None => Err(ParseError::BadNumber),
            Some(code) => if code == 0 || code == 1 {
                spec_linear_words(words, 1, xp, yp, Seq::empty())
            } else if code == 2 || code == 3 {
                match spec_arc_words(words, 1, 0, 0, 0, 0) {
                    Err(e) => Err(e),
                    Ok((xv, yv, iv, jv)) => Ok(
                        (
                            spec_arc(
                                xp,
                                yp,
                                xv,
                                yv,
                                iv,
                                jv,
                                if code == 2 {
                                    Direction::CW
                                } else {
                                    Direction::CCW
                                },
                            ),
                            xv,
                            yv,
                        ),
                    ),
                }
            } else if code == 20 {
                Ok((seq![Command::G20], xp, yp))
            } else if code == 21 {
                Ok((seq![Command::G21], xp, yp))
            } else {
                Ok((Seq::empty(), xp, yp))
            },
        }
    }
}

/// Folds the cleaned lines from index `i`, threading the position from
/// the origin and appending each line's commands.
pub open spec fn spec_run_lines(
    ls: Seq<Seq<u8>>,
    i: int,
    xp: int,
    yp: int,
    acc: Seq<Command>,
) -> Result<Seq<Command>, ParseError>
    decreases ls.len() - i,
{
    if i < 0 || i >= ls.len() {
        Ok(acc)
    } else {
        match spec_line_eval(ls[i], xp, yp) {
            Err(e) => Err(e),
            Ok((cs, nx, ny)) => spec_run_lines(ls, i + 1, nx, ny, acc + cs),
        }
    }
}

/// The command sequence of a whole program text, or the first decode error.
pub open spec fn spec_parse_program(text: Seq<u8>) -> Result<Seq<Command>, ParseError> {
    spec_run_lines(spec_clean_lines(spec_split(text, 10), 0), 0, 0, 0, Seq::empty())
}

fn split_on(s: &[u8], sep: u8) -> (r: Vec<Vec<u8>>)
    ensures
        r@.map_values(|v: Vec<u8>| v@) == spec_split(s@, sep),
        r@.len() >= 1,
{
    let mut out: Vec<Vec<u8>> = Vec::new();
    let mut cur: Vec<u8> = Vec::new();
    let mut i: usize = 0;
    let ghost mut seg_start: int = 0;
    proof {
        assert(s@.subrange(0, s@.len() as int) =~= s@);
        assert(out@.map_values(|v: Vec<u8>| v@) =~= Seq::<Seq<u8>>::empty());
        assert(Seq::<Seq<u8>>::empty() + spec_split(s@, sep) =~= spec_split(s@, sep));
        assert(cur@ =~= s@.subrange(0, 0));
    }
    while i < s.len()
        invariant
            0 <= seg_start <= i <= s@.len(),
            cur@ == s@.subrange(seg_start, i as int),
            forall|k: int| seg_start <= k < i ==> s@[k] != sep,
            spec_split(s@, sep) == out@.map_values(|v: Vec<u8>| v@) + spec_split(
                s@.subrange(seg_start, s@.len() as int),
                sep,
            ),
        decreases s@.len() - i,
    {
        let b = s[i];
        if b == sep {
            proof {
                let tail = s@.subrange(seg_start, s@.len() as int);
                lemma_find_is(tail, sep, i - seg_start);
                assert(tail.subrange(0, i - seg_start) =~= s@.subrange(seg_start, i as int));
                assert(tail.subrange(i - seg_start + 1, tail.len() as int) =~= s@.subrange(
                    i + 1,
                    s@.len() as int,
                ));
            }
            let ghost old_map = out@.map_values(|v: Vec<u8>| v@);
            let ghost cur_view = cur@;
            out.push(cur);
            cur = Vec::new();
            proof {
                assert(out@.map_values(|v: Vec<u8>| v@) =~= old_map.push(cur_view));
                assert(old_map.push(cur_view) =~= old_map + seq![cur_view]);
                assert((old_map + seq![cur_view]) + spec_split(
                    s@.subrange(i + 1, s@.len() as int),
                    sep,
                ) =~= old_map + (seq![cur_view] + spec_split(
                    s@.subrange(i + 1, s@.len() as int),
                    sep,
                )));
                seg_start = i as int + 1;
                assert(cur@ =~= s@.subrange(seg_start, i as int + 1));
            }
        } else {
            cur.push(b);
            proof {
                assert(cur@ =~= s@.subrange(seg_start, i as int + 1));
            }
        }
        i = i + 1;
    }
    proof {
        let tail = s@.subrange(seg_start, s@.len() as int);
        lemma_find_is(tail, sep, tail.len() as int);
        assert(tail =~= cur@);
    }
    let ghost old_map = out@.map_values(|v: Vec<u8>| v@);
    let ghost cur_view = cur@;
    out.push(cur);
    proof {
        assert(out@.map_values(|v: Vec<u8>| v@) =~= old_map.push(cur_view));
        assert(old_map.push(cur_view) =~= old_map + seq![cur_view]);
    }
    out
}

fn clean_lines(ls: Vec<Vec<u8>>) -> (r: Vec<Vec<u8>>)
    ensures
        r@.map_values(|v: Vec<u8>| v@) == spec_clean_lines(ls@.map_values(|v: Vec<u8>| v@), 0),
{
    let ghost gls = ls@.map_values(|v: Vec<u8>| v@);
    let mut out: Vec<Vec<u8>> = Vec::new();
    let mut i: usize = 0;
    while i < ls.len()
        invariant
            0 <= i <= ls@.len(),
            gls == ls@.map_values(|v: Vec<u8>| v@),
            spec_clean_lines(gls, 0) == out@.map_values(|v: Vec<u8>| v@) + spec_clean_lines(
                gls,
                i as int,
            ),
        decreases ls@.len() - i,
    {
        let line = &ls[i];
        let mut stripped: Vec<u8> = Vec::new();
        let mut j: usize = 0;
        let keep = if line.len() > 0 && line[line.len() - 1] == 13 {
            line.len() - 1
        } else {
            line.len()
        };
        proof {
            assert(gls[i as int] == line@);
        }
        while j < keep
            invariant
                0 <= j <= keep <= line@.len(),
                keep == spec_strip_cr(gls[i as int]).len(),
                i < ls@.len(),
                gls[i as int] == line@,
                stripped@ =~= spec_strip_cr(gls[i as int]).take(j as int),
            decreases keep - j,
        {
            stripped.push(line[j]);
            proof {
                assert(stripped@ =~= spec_strip_cr(gls[i as int]).take(j as int + 1));
            }
            j = j + 1;
        }
        proof {
            assert(stripped@ =~= spec_strip_cr(gls[i as int]));
        }
        let ghost old_map = out@.map_values(|v: Vec<u8>| v@);
        if stripped.len() > 0 {
            let ghost sv = stripped@;
            out.push(stripped);
            proof {
                assert(out@.map_values(|v: Vec<u8>| v@) =~= old_map.push(sv));
                assert(old_map.push(sv) =~= old_map + seq![sv]);
                assert((old_map + seq![sv]) + spec_clean_lines(gls, i as int + 1) =~= old_map + (
                seq![sv] + spec_clean_lines(gls, i as int + 1)));
            }
        }
        i = i + 1;
    }
    proof {
        assert(out@.map_values(|v: Vec<u8>| v@) + spec_clean_lines(gls, gls.len() as int)
            =~= out@.map_values(|v: Vec<u8>| v@));
    }
    out
}

fn eval_linear(words: &Vec<Vec<u8>>, xp: i64, yp: i64) -> (r: Result<
    (Vec<Command>, i64, i64),
    ParseError,
>)
    requires
        -COORD_LIMIT <= xp <= COORD_LIMIT,
        -COORD_LIMIT <= yp <= COORD_LIMIT,
        words@.len() >= 1,
    ensures
        ({
            let ws = words@.map_values(|v: Vec<u8>| v@);
            match r {
                Ok((cs, nx, ny)) => spec_linear_words(ws, 1, xp as int, yp as int, Seq::empty())
                    == Ok::<(Seq<Command>, int, int), ParseError>((cs@, nx as int, ny as int))
                    && -COORD_LIMIT <= nx <= COORD_LIMIT && -COORD_LIMIT <= ny <= COORD_LIMIT,
                Err(e) => spec_linear_words(ws, 1, xp as int, yp as int, Seq::empty()) == Err::<
                    (Seq<Command>, int, int),
                    ParseError,
                >(e),
            }
        }),
{
    let ghost ws = words@.map_values(|v: Vec<u8>| v@);
    let mut acc: Vec<Command> = Vec::new();
    let mut xc = xp;
    let mut yc = yp;
    let mut j: usize = 1;
    proof {
        assert(acc@ =~= Seq::<Command>::empty());
    }
    while j < words.len()
        invariant
            1 <= j <= ws.len() || (ws.len() <= 1 && j == 1),
            ws == words@.map_values(|v: Vec<u8>| v@),
            -COORD_LIMIT <= xc <= COORD_LIMIT,
            -COORD_LIMIT <= yc <= COORD_LIMIT,
            spec_linear_words(ws, 1, xp as int, yp as int, Seq::empty()) == spec_linear_words(
                ws,
                j as int,
                xc as int,
                yc as int,
                acc@,
            ),
        decreases ws.len() - j,
    {
        let w = &words[j];
        proof {
            assert(ws[j as int] == w@);
        }
        if w.len() == 0 {
            return Err(ParseError::EmptyWord);
        }
        let sel = w[0];
        let rest = &w.as_slice()[1..w.len()];
        proof {
            assert(rest@ =~= ws[j as int].subrange(1, ws[j as int].len() as int));
        }
        if sel == 88 {
            match parse_coord(rest) {
                Some(v) => {
                    if -COORD_LIMIT <= v && v <= COORD_LIMIT {
                        acc.push(Command::X(v));
                        xc = v;
                    } else {
                        return Err(ParseError::BadNumber);
                    }
                },
                None => {
                    return Err(ParseError::BadNumber);
                },
            }
        } else if sel == 89 {
            match parse_coord(rest) {
                Some(v) => {
                    if -COORD_LIMIT <= v && v <= COORD_LIMIT {
                        acc.push(Command::Y(v));
                        yc = v;
                    } else {
                        return Err(ParseError::BadNumber);
                    }
                },
                None => {
                    return Err(ParseError::BadNumber);
                },
            }
        } else if sel == 78 {
            match parse_int(rest) {
                Some(v) => acc.push(Command::N(v)),
                None => {
                    return Err(ParseError::BadNumber);
                },
            }
        } else if sel == 77 {
            match parse_int(rest) {
                Some(v) => acc.push(Command::M(v)),
                None => {
                    return Err(ParseError::BadNumber);
                },
            }
        } else if sel == 74 {
            match parse_int(rest) {
                Some(v) => acc.push(Command::J(v)),
                None => {
                    return Err(ParseError::BadNumber);
                },
            }
        } else if sel == 75 {
            match parse_int(rest) {
                Some(v) => acc.push(Command::K(v)),
                None => {
                    return Err(ParseError::BadNumber);
                },
            }
        } else {
        }
        j = j + 1;
    }
    Ok((acc, xc, yc))
}

fn eval_arc(words: &Vec<Vec<u8>>) -> (r: Result<(i64, i64, i64, i64), ParseError>)
    requires
        words@.len() >= 1,
    ensures
        ({
            let ws = words@.map_values(|v: Vec<u8>| v@);
            match r {
                Ok((xv, yv, iv, jv)) => spec_arc_words(ws, 1, 0, 0, 0, 0) == Ok::<
                    (int, int, int, int),
                    ParseError,
                >((xv as int, yv as int, iv as int, jv as int)) && -COORD_LIMIT <= xv
                    <= COORD_LIMIT && -COORD_LIMIT <= yv <= COORD_LIMIT && -COORD_LIMIT <= iv
                    <= COORD_LIMIT && -COORD_LIMIT <= jv <= COORD_LIMIT,
                Err(e) => spec_arc_words(ws, 1, 0, 0, 0, 0) == Err::<
                    (int, int, int, int),
                    ParseError,
                >(e),
            }
        }),
{
    let ghost ws = words@.map_values(|v: Vec<u8>| v@);
    let mut xv: i64 = 0;
    let mut yv: i64 = 0;
    let mut iv: i64 = 0;
    let mut jv: i64 = 0;
    let mut j: usize = 1;
    while j < words.len()
        invariant
            1 <= j <= ws.len() || (ws.len() <= 1 && j == 1),
            ws == words@.map_values(|v: Vec<u8>| v@),
            -COORD_LIMIT <= xv <= COORD_LIMIT,
            -COORD_LIMIT <= yv <= COORD_LIMIT,
            -COORD_LIMIT <= iv <= COORD_LIMIT,
            -COORD_LIMIT <= jv <= COORD_LIMIT,
            spec_arc_words(ws, 1, 0, 0, 0, 0) == spec_arc_words(
                ws,
                j as int,
                xv as int,
                yv as int,
                iv as int,
                jv as int,
            ),
        decreases ws.len() - j,
    {
        let w = &words[j];
        proof {
            assert(ws[j as int] == w@);
        }
        if w.len() == 0 {
            return Err(ParseError::EmptyWord);
        }
        let sel = w[0];
        let rest = &w.as_slice()[1..w.len()];
        proof {
            assert(rest@ =~= ws[j as int].subrange(1, ws[j as int].len() as int));
        }
        if sel == 88 || sel == 89 || sel == 73 || sel == 74 {
            match parse_coord(rest) {
                Some(v) => {
                    if -COORD_LIMIT <= v && v <= COORD_LIMIT {
                        if sel == 88 {
                            xv = v;
                        } else if sel == 89 {
                            yv = v;
                        } else if sel == 73 {
                            iv = v;
                        } else {
                            jv = v;
                        }
                    } else {
                        return Err(ParseError::BadNumber);
                    }
                },
                None => {
                    return Err(ParseError::BadNumber);
                },
            }
        } else {
        }
        j = j + 1;
    }
    Ok((xv, yv, iv, jv))
}

/// Parses program text and hands the resulting commands out one at a
/// time, in order, exactly once.
pub struct FileLoader {
    commands: Vec<Command>,
    iterator: usize,
}

impl FileLoader {
    /// The commands parsed so far, in execution order.
    pub closed spec fn commands_view(&self) -> Seq<Command> {
        self.commands@
    }

    /// How many commands have already been handed out.
    pub closed spec fn cursor(&self) -> int {
        self.iterator as int
    }

    pub fn new() -> (r: FileLoader)
        ensures
            r.commands_view() == Seq::<Command>::empty(),
            r.cursor() == 0,
    {
        FileLoader { commands: Vec::new(), iterator: 0 }
    }

    /// Decodes a whole program text, appending its commands; a decode
    /// failure leaves the loader unchanged and reports the first error.
    pub fn parse(&mut self, text: &[u8]) -> (r: Result<(), ParseError>)
        ensures
            final(self).cursor() == old(self).cursor(),
            match r {
                Ok(_) => spec_parse_program(text@) is Ok && final(self).commands_view() == old(self).commands_view() + spec_parse_program(text@)->Ok_0,
                Err(e) => spec_parse_program(text@) == Err::<Seq<Command>, ParseError>(e) && final(self).commands_view() == old(self).commands_view(),
            },
    {
        let raw = split_on(text, 10);
        let lines = clean_lines(raw);
        let ghost gl = lines@.map_values(|v: Vec<u8>| v@);
        let mut acc: Vec<Command> = Vec::new();
        let mut xc: i64 = 0;
        let mut yc: i64 = 0;
        let mut i: usize = 0;
        proof {
            assert(acc@ =~= Seq::<Command>::empty());
        }
        while i < lines.len()
            invariant
                0 <= i <= lines@.len(),
                gl == lines@.map_values(|v: Vec<u8>| v@),
                gl == spec_clean_lines(spec_split(text@, 10), 0),
                -COORD_LIMIT <= xc <= COORD_LIMIT,
                -COORD_LIMIT <= yc <= COORD_LIMIT,
                spec_parse_program(text@) == spec_run_lines(
                    gl,
                    i as int,
                    xc as int,
                    yc as int,
                    acc@,
                ),
            decreases lines@.len() - i,
        {
            let ghost acc0 = acc@;
            let ghost x0: int = xc as int;
            let ghost y0: int = yc as int;
            let words = split_on(lines[i].as_slice(), 32);
            let ghost ws = words@.map_values(|v: Vec<u8>| v@);
            proof {
                assert(gl[i as int] == lines@[i as int]@);
                assert(ws == spec_split(gl[i as int], 32));
            }
            let w0 = &words[0];
            proof {
                assert(ws[0] == w0@);
            }
            if w0.len() == 0 {
                return Err(ParseError::EmptyWord);
            }
            let first = w0[0];
            if first == 71 {
                let code_tok = &w0.as_slice()[1..w0.len()];
                proof {
                    assert(code_tok@ =~= ws[0].subrange(1, ws[0].len() as int));
                }
                match parse_int(code_tok) {
                    None => {
                        return Err(ParseError::BadNumber);
                    },
                    Some(code) => {
                        if code == 0 || code == 1 {
                            match eval_linear(&words, xc, yc) {
                                Ok((cs, nx, ny)) => {
                                    let mut cs = cs;
                                    acc.append(&mut cs);
                                    xc = nx;
                                    yc = ny;
                                },
                                Err(e) => {
                                    return Err(e);
                                },
                            }
                        } else if code == 2 || code == 3 {
                            match eval_arc(&words) {
                                Ok((xv, yv, iv, jv)) => {
                                    let dir = if code == 2 {
                                        Direction::CW
                                    } else {
                                        Direction::CCW
                                    };
                                    let mut cs = arc_inter(xc, yc, xv, yv, iv, jv, dir);
                                    acc.append(&mut cs);
                                    xc = xv;
                                    yc = yv;
                                },
                                Err(e) => {
                                    return Err(e);
                                },
                            }
                        } else if code == 20 {
                            acc.push(Command::G20);
                            proof {
                                assert(acc@ =~= acc0 + seq![Command::G20]);
                            }
                        } else if code == 21 {
                            acc.push(Command::G21);
                            proof {
                                assert(acc@ =~= acc0 + seq![Command::G21]);
                            }
                        } else {
                            proof {
                                assert(acc@ =~= acc0 + Seq::<Command>::empty());
                            }
                        }
                    },
                }
            } else {
                proof {
                    assert(acc@ =~= acc0 + Seq::<Command>::empty());
                }
            }
            proof {
                assert(spec_run_lines(gl, i as int, x0, y0, acc0) == spec_run_lines(
                    gl,
                    i as int + 1,
                    xc as int,
                    yc as int,
                    acc@,
                ));
            }
            i = i + 1;
        }
        let ghost parsed = acc@;
        self.commands.append(&mut acc);
        Ok(())
    }

    /// Hands out the next command, or nothing once the sequence is spent.
    pub fn next(&mut self) -> (r: Option<Command>)
        ensures
            final(self).commands_view() == old(self).commands_view(),
            old(self).cursor() < old(self).commands_view().len() ==> r == Some(
                old(self).commands_view()[old(self).cursor()],
            ) && final(self).cursor() == old(self).cursor() + 1,
            old(self).cursor() >= old(self).commands_view().len() ==> r is None && final(self).cursor() == old(self).cursor(),
    {
        let iter = self.iterator;
        if iter < self.commands.len() {
            self.iterator = iter + 1;
            Some(self.commands[iter])
        } else {
            None
        }
    }

    /// Gives up the loader and yields the full command sequence.
    pub fn into_commands(self) -> (r: Vec<Command>)
        ensures
            r@ == self.commands_view(),
    {
        let FileLoader { commands, iterator: _ } = self;
        commands
    }
}

} // verus!
