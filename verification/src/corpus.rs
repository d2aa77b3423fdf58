//! The corpus compiler: runs the entry parser over one or more source
//! streams per category and collects the successful records in order, and
//! splits the comma-separated heteronym source into its fields.

use vstd::prelude::*;
use crate::entry::{parse_chars, parse_res_view, parse_spec, ParseError};
use crate::matcher::view_pairs;
use crate::text::{
    chars_vec,
    find_char,
    lemma_find_char_at,
    lemma_find_char_bounds,
    string_from_range,
    subvec,
};

verus! {

/// A dictionary category. The first three hold pronunciation records; the
/// heteronym category holds a flat list of characters with no pronunciation
/// attached.
#[derive(Clone, Copy, Debug, PartialEq, Eq, Structural)]
pub enum Category {
    Characters,
    Words,
    Surnames,
    Heteronyms,
}

/// Where compilation failed: the source stream, the line within it, and the
/// parse error.
#[derive(Clone, Copy, Debug, PartialEq, Eq, Structural)]
pub struct CompileError {
    pub source: usize,
    pub line: usize,
    pub error: ParseError,
}

/// The fields of `s` split on `c`: a trailing separator yields a trailing
/// empty field, and an empty `s` is one empty field.
pub open spec fn split_on(s: Seq<char>, c: char) -> Seq<Seq<char>>
    decreases s.len(),
    via split_on_decreases
{
    let k = find_char(s, c);
    if k >= s.len() {
        seq![s]
    } else {
        seq![s.subrange(0, k)] + split_on(s.subrange(k + 1, s.len() as int), c)
    }
}

#[via_fn]
proof fn split_on_decreases(s: Seq<char>, c: char) {
    lemma_find_char_bounds(s, c);
}

/// A line with a trailing carriage return loses it.
pub open spec fn strip_cr(l: Seq<char>) -> Seq<char> {
    if l.len() > 0 && l.last() == '\r' {
        l.drop_last()
    } else {
        l
    }
}

/// The lines of a source text: split on newlines, one trailing carriage
/// return stripped from each line, and no final empty line for a text that
/// ends with a newline.
pub open spec fn split_lines(s: Seq<char>) -> Seq<Seq<char>> {
    if s.len() == 0 {
        Seq::empty()
    } else {
        let ps = if s.last() == '\n' {
            split_on(s, '\n').drop_last()
        } else {
            split_on(s, '\n')
        };
        ps.map_values(|l: Seq<char>| strip_cr(l))
    }
}

proof fn lemma_split_on_len(s: Seq<char>, c: char)
    ensures
        split_on(s, c).len() >= 1,
{
    lemma_find_char_bounds(s, c);
}

/// One step of line splitting: the first line comes off the front.
proof fn lemma_split_lines_step(t: Seq<char>)
    requires
        t.len() > 0,
    ensures
        ({
            let k = find_char(t, '\n');
            if k >= t.len() {
                split_lines(t) == seq![strip_cr(t)]
            } else {
                split_lines(t) == seq![strip_cr(t.subrange(0, k))] + split_lines(
                    t.subrange(k + 1, t.len() as int),
                )
            }
        }),
{
    lemma_find_char_bounds(t, '\n');
    let k = find_char(t, '\n');
    let ps = split_on(t, '\n');
    if k >= t.len() {
        assert(t[t.len() - 1] != '\n');
        assert(ps =~= seq![t]);
        assert(ps.map_values(|l: Seq<char>| strip_cr(l)) =~= seq![strip_cr(t)]);
    } else {
        let rest = t.subrange(k + 1, t.len() as int);
        let t0 = t.subrange(0, k);
        let q = split_on(rest, '\n');
        assert(ps == seq![t0] + q);
        lemma_split_on_len(rest, '\n');
        if t.last() == '\n' {
            if rest.len() == 0 {
                assert(q =~= seq![rest]);
                assert(ps.drop_last() =~= seq![t0]);
                assert(ps.drop_last().map_values(|l: Seq<char>| strip_cr(l)) =~= seq![
                    strip_cr(t0),
                ]);
                assert(split_lines(rest) =~= Seq::<Seq<char>>::empty());
                assert(seq![strip_cr(t0)] + Seq::<Seq<char>>::empty() =~= seq![strip_cr(t0)]);
            } else {
                assert(rest.last() == t.last());
                assert(ps.drop_last() =~= seq![t0] + q.drop_last());
                assert((seq![t0] + q.drop_last()).map_values(|l: Seq<char>| strip_cr(l)) =~= seq![
                    strip_cr(t0),
                ] + q.drop_last().map_values(|l: Seq<char>| strip_cr(l)));
            }
        } else {
            if rest.len() == 0 {
                assert(t[t.len() - 1] == '\n');
            }
            assert(rest.last() == t.last());
            assert(ps.map_values(|l: Seq<char>| strip_cr(l)) =~= seq![strip_cr(t0)] + q.map_values(
                |l: Seq<char>| strip_cr(l),
            ));
        }
    }
}

/// Applying the entry parser to each line in order: the records of the
/// successful lines, or the first fatal error with its line index.
pub open spec fn compile_lines_spec(lines: Seq<Seq<char>>) -> Result<
    Seq<(Seq<char>, Seq<char>)>,
    (int, ParseError),
>
    decreases lines.len(),
{
    if lines.len() == 0 {
        Ok(Seq::empty())
    } else {
        match compile_lines_spec(lines.drop_last()) {
            Err(e) => Err(e),
            Ok(rs) => match parse_spec(lines.last()) {
                Err(pe) => Err((lines.len() - 1, pe)),
                Ok(None) => Ok(rs),
                Ok(Some(rec)) => Ok(rs.push(rec)),
            },
        }
    }
}

/// Compiling the sources in order, concatenating their records, or the
/// first fatal error with its source and line indices.
pub open spec fn compile_sources_spec(srcs: Seq<Seq<char>>) -> Result<
    Seq<(Seq<char>, Seq<char>)>,
    (int, int, ParseError),
>
    decreases srcs.len(),
{
    if srcs.len() == 0 {
        Ok(Seq::empty())
    } else {
        match compile_sources_spec(srcs.drop_last()) {
            Err(e) => Err(e),
            Ok(rs) => match compile_lines_spec(split_lines(srcs.last())) {
                Err(e) => Err((srcs.len() - 1, e.0, e.1)),
                Ok(rs2) => Ok(rs + rs2),
            },
        }
    }
}

proof fn lemma_compile_lines_err(lines: Seq<Seq<char>>, j: int, pe: ParseError)
    requires
        0 <= j < lines.len(),
        compile_lines_spec(lines.subrange(0, j)) is Ok,
        parse_spec(lines[j]) == Err::<Option<(Seq<char>, Seq<char>)>, ParseError>(pe),
    ensures
        compile_lines_spec(lines) == Err::<Seq<(Seq<char>, Seq<char>)>, (int, ParseError)>(
            (j, pe),
        ),
    decreases lines.len(),
{
    if j == lines.len() - 1 {
        assert(lines.drop_last() =~= lines.subrange(0, j));
    } else {
        assert(lines.drop_last().subrange(0, j) =~= lines.subrange(0, j));
        assert(lines.drop_last()[j] == lines[j]);
        lemma_compile_lines_err(lines.drop_last(), j, pe);
    }
}

proof fn lemma_compile_sources_err(srcs: Seq<Seq<char>>, si: int, li: int, pe: ParseError)
    requires
        0 <= si < srcs.len(),
        compile_sources_spec(srcs.subrange(0, si)) is Ok,
        compile_lines_spec(split_lines(srcs[si])) == Err::<
            Seq<(Seq<char>, Seq<char>)>,
            (int, ParseError),
        >((li, pe)),
    ensures
        compile_sources_spec(srcs) == Err::<Seq<(Seq<char>, Seq<char>)>, (int, int, ParseError)>(
            (si, li, pe),
        ),
    decreases srcs.len(),
{
    if si == srcs.len() - 1 {
        assert(srcs.drop_last() =~= srcs.subrange(0, si));
    } else {
        assert(srcs.drop_last().subrange(0, si) =~= srcs.subrange(0, si));
        assert(srcs.drop_last()[si] == srcs[si]);
        lemma_compile_sources_err(srcs.drop_last(), si, li, pe);
    }
}

/// The lines of a source text, as vectors of characters.
fn split_lines_exec(s: &Vec<char>) -> (r: Vec<Vec<char>>)
    ensures
        r@.map_values(|t: Vec<char>| t@) == split_lines(s@),
{
    let n: usize = s.len();
    let mut out: Vec<Vec<char>> = Vec::new();
    let mut i: usize = 0;
    proof {
        assert(s@.subrange(0, n as int) =~= s@);
        assert(out@.map_values(|t: Vec<char>| t@) + split_lines(s@) =~= split_lines(s@));
    }
    while i < n
        invariant
            i <= n,
            n == s@.len(),
            split_lines(s@) == out@.map_values(|t: Vec<char>| t@) + split_lines(
                s@.subrange(i as int, n as int),
            ),
        decreases n - i,
    {
        let ghost pre = out@.map_values(|t: Vec<char>| t@);
        let mut j: usize = i;
        let mut stop: bool = false;
        while !stop && j < n
            invariant
                i <= j <= n,
                n == s@.len(),
                forall|m: int| i <= m < j ==> s@[m] != '\n',
                stop ==> j < n && s@[j as int] == '\n',
            decreases n - j + (if stop { 0int } else { 1int }),
        {
            if s[j] == '\n' {
                stop = true;
            } else {
                j += 1;
            }
        }
        let endx: usize = if j > i && s[j - 1] == '\r' {
            j - 1
        } else {
            j
        };
        let lvec = subvec(s, i, endx);
        out.push(lvec);
        proof {
            let t = s@.subrange(i as int, n as int);
            assert forall|m: int| 0 <= m < j - i implies t[m] != '\n' by {
                assert(t[m] == s@[i + m]);
            }
            lemma_find_char_at(t, '\n', j - i);
            lemma_split_lines_step(t);
            assert(t.subrange(0, j - i) =~= s@.subrange(i as int, j as int));
            let stripped = strip_cr(s@.subrange(i as int, j as int));
            assert(stripped =~= s@.subrange(i as int, endx as int));
            assert(out@.map_values(|t2: Vec<char>| t2@) =~= pre.push(stripped));
            if j < n {
                assert(t.subrange(j - i + 1, t.len() as int) =~= s@.subrange(j + 1, n as int));
                assert(pre.push(stripped) + split_lines(s@.subrange(j + 1, n as int)) =~= pre + (
                seq![stripped] + split_lines(s@.subrange(j + 1, n as int))));
            } else {
                assert(split_lines(s@.subrange(n as int, n as int)) =~= Seq::<Seq<char>>::empty());
                assert(pre.push(stripped) + Seq::<Seq<char>>::empty() =~= pre + seq![stripped]);
            }
        }
        if j < n {
            i = j + 1;
        } else {
            i = n;
        }
    }
    proof {
        assert(split_lines(s@.subrange(n as int, n as int)) =~= Seq::<Seq<char>>::empty());
        assert(out@.map_values(|t: Vec<char>| t@) + Seq::<Seq<char>>::empty() =~= out@.map_values(
            |t: Vec<char>| t@,
        ));
    }
    out
}

/// Compiles the given source streams in order: each stream is split into
/// lines, each line run through the entry parser, and the successful
/// records are collected preserving source and intra-source order. The
/// first fatal parse error aborts compilation and names the offending
/// source and line.
pub fn compile(sources: &Vec<String>) -> (r: Result<Vec<(String, String)>, CompileError>)
    ensures
        (r matches Ok(recs) ==> compile_sources_spec(sources@.map_values(|s: String| s@))
            == Ok::<Seq<(Seq<char>, Seq<char>)>, (int, int, ParseError)>(view_pairs(recs@))),
        (r matches Err(e) ==> compile_sources_spec(sources@.map_values(|s: String| s@))
            == Err::<Seq<(Seq<char>, Seq<char>)>, (int, int, ParseError)>(
            (e.source as int, e.line as int, e.error),
        )),
{
    let ghost srcv = sources@.map_values(|s: String| s@);
    let mut out: Vec<(String, String)> = Vec::new();
    let mut si: usize = 0;
    proof {
        assert(srcv.subrange(0, 0) =~= Seq::<Seq<char>>::empty());
        assert(view_pairs(out@) =~= Seq::<(Seq<char>, Seq<char>)>::empty());
    }
    while si < sources.len()
        invariant
            si <= sources@.len(),
            srcv == sources@.map_values(|s: String| s@),
            compile_sources_spec(srcv.subrange(0, si as int)) == Ok::<
                Seq<(Seq<char>, Seq<char>)>,
                (int, int, ParseError),
            >(view_pairs(out@)),
        decreases sources@.len() - si,
    {
        let svec = chars_vec(sources[si].as_str());
        proof {
            assert(svec@ == srcv[si as int]);
        }
        let lines = split_lines_exec(&svec);
        let ghost linesv = lines@.map_values(|t: Vec<char>| t@);
        let ghost base = view_pairs(out@);
        let mut li: usize = 0;
        proof {
            assert(linesv.subrange(0, 0) =~= Seq::<Seq<char>>::empty());
            assert(base + Seq::<(Seq<char>, Seq<char>)>::empty() =~= base);
        }
        while li < lines.len()
            invariant
                li <= lines@.len(),
                si < sources@.len(),
                srcv == sources@.map_values(|s: String| s@),
                linesv == lines@.map_values(|t: Vec<char>| t@),
                linesv == split_lines(srcv[si as int]),
                compile_sources_spec(srcv.subrange(0, si as int)) == Ok::<
                    Seq<(Seq<char>, Seq<char>)>,
                    (int, int, ParseError),
                >(base),
                compile_lines_spec(linesv.subrange(0, li as int)) is Ok,
                view_pairs(out@) == base + compile_lines_spec(
                    linesv.subrange(0, li as int),
                )->Ok_0,
            decreases lines@.len() - li,
        {
            let ghost cur = compile_lines_spec(linesv.subrange(0, li as int))->Ok_0;
            proof {
                assert(linesv[li as int] == lines@[li as int]@);
                assert(linesv.subrange(0, li + 1).drop_last() =~= linesv.subrange(0, li as int));
                assert(linesv.subrange(0, li + 1).last() == linesv[li as int]);
            }
            match parse_chars(&lines[li]) {
                Ok(Some(rec)) => {
                    let ghost recv = (rec.0@, rec.1@);
                    out.push(rec);
                    proof {
                        assert(view_pairs(out@) =~= (base + cur).push(recv));
                        assert((base + cur).push(recv) =~= base + cur.push(recv));
                    }
                },
                Ok(None) => {},
                Err(pe) => {
                    proof {
                        lemma_compile_lines_err(linesv, li as int, pe);
                        lemma_compile_sources_err(srcv, si as int, li as int, pe);
                    }
                    return Err(CompileError { source: si, line: li, error: pe });
                },
            }
            li += 1;
        }
        proof {
            assert(linesv.subrange(0, lines@.len() as int) =~= linesv);
            let next = srcv.subrange(0, si + 1);
            assert(next.drop_last() =~= srcv.subrange(0, si as int));
            assert(next.last() == srcv[si as int]);
        }
        si += 1;
    }
    proof {
        assert(srcv.subrange(0, sources@.len() as int) =~= srcv);
    }
    Ok(out)
}

/// Splits the heteronym source, a single comma-separated list, into its
/// fields: one entry per field, no pronunciation attached.
pub fn compile_heteronyms(source: &str) -> (r: Vec<String>)
    ensures
        r@.map_values(|t: String| t@) == split_on(source@, ','),
{
    let svec = chars_vec(source);
    let n: usize = svec.len();
    let mut out: Vec<String> = Vec::new();
    let mut i: usize = 0;
    let mut done: bool = false;
    proof {
        assert(out@.map_values(|t: String| t@) + split_on(source@, ',') =~= split_on(
            source@,
            ',',
        ));
        assert(svec@.subrange(0, n as int) =~= svec@);
    }
    while !done
        invariant
            i <= n,
            n == source@.len(),
            svec@ == source@,
            split_on(source@, ',') == out@.map_values(|t: String| t@) + (if done {
                Seq::<Seq<char>>::empty()
            } else {
                split_on(source@.subrange(i as int, n as int), ',')
            }),
        decreases n - i + (if done { 0int } else { 1int }),
    {
        let ghost pre = out@.map_values(|t: String| t@);
        let mut j: usize = i;
        let mut stop: bool = false;
        while !stop && j < n
            invariant
                i <= j <= n,
                n == svec@.len(),
                forall|m: int| i <= m < j ==> svec@[m] != ',',
                stop ==> j < n && svec@[j as int] == ',',
            decreases n - j + (if stop { 0int } else { 1int }),
        {
            if svec[j] == ',' {
                stop = true;
            } else {
                j += 1;
            }
        }
        let field = string_from_range(&svec, i, j);
        out.push(field);
        proof {
            let t = source@.subrange(i as int, n as int);
            assert forall|m: int| 0 <= m < j - i implies t[m] != ',' by {
                assert(t[m] == source@[i + m]);
            }
            lemma_find_char_at(t, ',', j - i);
            assert(t.subrange(0, j - i) =~= source@.subrange(i as int, j as int));
            assert(out@.map_values(|t2: String| t2@) =~= pre.push(
                source@.subrange(i as int, j as int),
            ));
            if j < n {
                assert(t.subrange(j - i + 1, t.len() as int) =~= source@.subrange(
                    j + 1,
                    n as int,
                ));
                assert(pre.push(source@.subrange(i as int, j as int)) + split_on(
                    source@.subrange(j + 1, n as int),
                    ',',
                ) =~= pre + (seq![source@.subrange(i as int, j as int)] + split_on(
                    source@.subrange(j + 1, n as int),
                    ',',
                )));
            } else {
                assert(t =~= source@.subrange(i as int, j as int));
                assert(split_on(t, ',') =~= seq![source@.subrange(i as int, j as int)]);
                assert(pre.push(source@.subrange(i as int, j as int))
                    + Seq::<Seq<char>>::empty() =~= pre + seq![
                    source@.subrange(i as int, j as int),
                ]);
            }
        }
        if j < n {
            i = j + 1;
        } else {
            done = true;
        }
    }
    out
}

} // verus!
